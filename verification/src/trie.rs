use vstd::prelude::*;
use vstd::string::StrSliceExecFns;
use vstd::string::StringExecFns;

use crate::error::InternalError;
use crate::params::str_eq;
use crate::params::Params;
use crate::route::copy_vec;
use crate::route::find_route;
use crate::route::insert_route_seq;
use crate::route::Resource;
use crate::route::Route;
use crate::route::RouteValue;
use crate::route::RouteValueResult;
use crate::route::SpecValue;
use crate::segment::check_wildcards;
use crate::segment::common_prefix;
use crate::segment::common_prefix_len;
use crate::segment::is_param_key;
use crate::segment::is_param_str;
use crate::segment::is_wild_str;
use crate::segment::split_path;
use crate::segment::split_segments;
use crate::segment::wild_ok;

verus! {

/// One node of the routing trie: an edge label (a literal piece of a
/// segment, a `:name` capture, or the wildcard `*`), the value carried by
/// paths that terminate here, and the children in matching order.
#[derive(Debug)]
pub struct Node {
    pub key: String,
    pub value: Option<RouteValue>,
    pub child_nodes: Vec<Node>,
}

/// The mathematical content of a trie node.
#[verifier::ext_equal]
pub ghost struct SpecNode {
    pub key: Seq<char>,
    pub value: Option<SpecValue>,
    pub children: Seq<SpecNode>,
}

/// The view of an optional node value.
pub open spec fn value_view(v: Option<RouteValue>) -> Option<SpecValue> {
    match v {
        Some(x) => Some(x@),
        None => None,
    }
}

/// The view of a node: its key and value views, over the views of its
/// children.
pub open spec fn node_view(n: Node) -> SpecNode
    decreases n,
{
    SpecNode { key: n.key@, value: value_view(n.value), children: children_view(n.child_nodes@) }
}

/// The views of a sequence of nodes, in order.
pub open spec fn children_view(s: Seq<Node>) -> Seq<SpecNode>
    decreases s,
{
    if s.len() == 0 {
        Seq::empty()
    } else {
        children_view(s.drop_last()).push(node_view(s.last()))
    }
}

/// `children_view` is the element-wise view.
pub broadcast proof fn lemma_children_view(s: Seq<Node>)
    ensures
        (#[trigger] children_view(s)).len() == s.len(),
        forall|i: int| 0 <= i < s.len() ==> children_view(s)[i] == node_view(s[i]),
    decreases s.len(),
{
    if s.len() > 0 {
        lemma_children_view(s.drop_last());
    }
}

impl View for Node {
    type V = SpecNode;

    open spec fn view(&self) -> SpecNode {
        node_view(*self)
    }
}

impl Node {
    pub fn new(key: String, value: Option<RouteValue>) -> (r: Self)
        ensures
            r@ == (SpecNode {
                key: key@,
                value: value_view(value),
                children: Seq::<SpecNode>::empty(),
            }),
    {
        let r = Node { key, value, child_nodes: Vec::new() };
        proof {
            broadcast use lemma_children_view;

            assert(r@.children =~= Seq::<SpecNode>::empty());
        }
        r
    }

    /// Whether this node captures a parameter.
    pub fn is_param(&self) -> (r: bool)
        ensures
            r == is_param_key(self@.key),
    {
        is_param_str(self.key.as_str())
    }
}

/// What an insertion step must do at the current node.
#[derive(Clone, Copy, PartialEq, Eq, Structural, Debug)]
pub enum ActionName {
    /// Descend into the child at `node_index`.
    NextNode,
    /// No child accommodates the key: append or prepend a fresh leaf.
    CreateNewNode,
    /// The child at `node_index` shares a proper prefix with the key:
    /// truncate it and push its remainder down one level.
    SplitNode,
    /// The child's whole key is a proper prefix of the inserted key:
    /// continue inside the child with the key's remainder.
    SplitKey,
    /// The key conflicts with an existing parameter or wildcard sibling.
    Error,
}

/// How many characters matched, and which child is concerned.
#[derive(Clone, Copy, PartialEq, Eq, Structural, Debug)]
pub struct ActionPayload {
    pub match_count: usize,
    pub node_index: usize,
}

/// The action an insertion step performs, with its payload.
#[derive(Clone, Copy, PartialEq, Eq, Structural, Debug)]
pub struct Action {
    pub name: ActionName,
    pub payload: ActionPayload,
}

impl Action {
    pub fn new(name: ActionName, payload: ActionPayload) -> (r: Self)
        ensures
            r == (Action { name, payload }),
    {
        Action { name, payload }
    }
}

impl ActionPayload {
    pub fn new(match_count: usize, node_index: usize) -> (r: Self)
        ensures
            r == (ActionPayload { match_count, node_index }),
    {
        ActionPayload { match_count, node_index }
    }
}

/// The action chosen for `key` among `children`, starting at child `i`:
/// the first child that is a parameter, conflicts, or shares a prefix
/// decides; otherwise a new node is created.
pub open spec fn action_at(children: Seq<SpecNode>, key: Seq<char>, i: int) -> Action
    decreases children.len() - i,
{
    if i < 0 || i >= children.len() {
        Action {
            name: ActionName::CreateNewNode,
            payload: ActionPayload { match_count: 0, node_index: 0 },
        }
    } else {
        let ck = children[i].key;
        if is_param_key(ck) || is_param_key(key) {
            if key == ck {
                Action {
                    name: ActionName::NextNode,
                    payload: ActionPayload { match_count: 0, node_index: i as usize },
                }
            } else {
                Action {
                    name: ActionName::Error,
                    payload: ActionPayload { match_count: 0, node_index: i as usize },
                }
            }
        } else {
            let c = common_prefix(key, ck);
            if c == key.len() && c == ck.len() {
                Action {
                    name: ActionName::NextNode,
                    payload: ActionPayload { match_count: c as usize, node_index: i as usize },
                }
            } else if c == ck.len() {
                Action {
                    name: ActionName::SplitKey,
                    payload: ActionPayload { match_count: c as usize, node_index: i as usize },
                }
            } else if c != 0 {
                Action {
                    name: ActionName::SplitNode,
                    payload: ActionPayload { match_count: c as usize, node_index: i as usize },
                }
            } else {
                action_at(children, key, i + 1)
            }
        }
    }
}

impl Node {
    /// Decide what inserting `key` must do at this node, without touching
    /// anything yet.
    pub fn get_insertion_action(&self, key: &str) -> (r: Action)
        ensures
            r == action_at(self@.children, key@, 0),
    {
        proof {
            lemma_children_view(self.child_nodes@);
        }
        let klen = key.unicode_len();
        let key_is_param = is_param_str(key);
        let n = self.child_nodes.len();
        let mut i: usize = 0;
        while i < n
            invariant
                n == self.child_nodes.len(),
                klen == key@.len(),
                key_is_param == is_param_key(key@),
                i <= n,
                self@.children.len() == n,
                forall|j: int| 0 <= j < n ==> self@.children[j] == self.child_nodes@[j]@,
                action_at(self@.children, key@, 0) == action_at(self@.children, key@, i as int),
            decreases n - i,
        {
            let child = &self.child_nodes[i];
            if child.is_param() || key_is_param {
                if str_eq(key, child.key.as_str()) {
                    return Action::new(ActionName::NextNode, ActionPayload::new(0, i));
                } else {
                    return Action::new(ActionName::Error, ActionPayload::new(0, i));
                }
            }
            let count = common_prefix_len(key, child.key.as_str());
            let cklen = child.key.unicode_len();
            if count == klen && count == cklen {
                return Action::new(ActionName::NextNode, ActionPayload::new(count, i));
            } else if count == cklen {
                return Action::new(ActionName::SplitKey, ActionPayload::new(count, i));
            } else if count != 0 {
                return Action::new(ActionName::SplitNode, ActionPayload::new(count, i));
            }
            i = i + 1;
        }
        Action::new(ActionName::CreateNewNode, ActionPayload::new(0, 0))
    }
}

/// The action decided among `children` stays within bounds, and its payload
/// records exactly the common-prefix length that selected it.
pub proof fn lemma_action_at_props(children: Seq<SpecNode>, key: Seq<char>, i: int)
    requires
        0 <= i <= children.len(),
        key.len() <= usize::MAX,
        children.len() <= usize::MAX,
    ensures
        ({
            let a = action_at(children, key, i);
            let idx = a.payload.node_index as int;
            let mc = a.payload.match_count as int;
            &&& (a.name == ActionName::CreateNewNode ==> a.payload == (ActionPayload {
                match_count: 0,
                node_index: 0,
            }))
            &&& (a.name != ActionName::CreateNewNode ==> i <= idx < children.len())
            &&& (a.name == ActionName::NextNode ==> mc == 0 || (
            !is_param_key(children[idx].key) && !is_param_key(key) && mc == common_prefix(
                key,
                children[idx].key,
            ) && mc == key.len() && mc == children[idx].key.len()))
            &&& (a.name == ActionName::NextNode && (is_param_key(children[idx].key)
                || is_param_key(key)) ==> key == children[idx].key && mc == 0)
            &&& (a.name == ActionName::SplitKey ==> !is_param_key(children[idx].key)
                && !is_param_key(key) && mc == common_prefix(key, children[idx].key) && mc
                == children[idx].key.len() && mc < key.len())
            &&& (a.name == ActionName::SplitNode ==> !is_param_key(children[idx].key)
                && !is_param_key(key) && mc == common_prefix(key, children[idx].key) && 0 < mc && mc
                < children[idx].key.len() && mc <= key.len())
            &&& (a.name == ActionName::Error ==> (is_param_key(children[idx].key) || is_param_key(
                key,
            )) && key != children[idx].key)
        }),
    decreases children.len() - i,
{
    if i < children.len() {
        let ck = children[i].key;
        if !(is_param_key(ck) || is_param_key(key)) {
            crate::segment::lemma_common_prefix_props(key, ck);
            let c = common_prefix(key, ck);
            if c == key.len() && c == ck.len() {
            } else if c == ck.len() {
            } else if c != 0 {
            } else {
                lemma_action_at_props(children, key, i + 1);
            }
        }
    }
}

/// What an insertion carries to the node where the registered path ends.
pub enum TerminalOp {
    /// Register a route there.
    AddRoute(Route),
    /// Append a middleware identifier there.
    AddMiddleware(u64),
    /// Graft a sub-router's root there.
    Mount(Node),
}

/// The mathematical content of a terminal operation.
pub ghost enum SpecOp {
    AddRoute(Route),
    AddMiddleware(u64),
    Mount(SpecNode),
}

impl View for TerminalOp {
    type V = SpecOp;

    open spec fn view(&self) -> SpecOp {
        match self {
            TerminalOp::AddRoute(rt) => SpecOp::AddRoute(*rt),
            TerminalOp::AddMiddleware(m) => SpecOp::AddMiddleware(*m),
            TerminalOp::Mount(n) => SpecOp::Mount(node_view(*n)),
        }
    }
}

/// Apply the terminal operation at the node where the path ends. The
/// second component reports success: a duplicated method or an occupied
/// mount point refuses and leaves the node as it stood.
pub open spec fn apply_op(n: SpecNode, op: SpecOp) -> (SpecNode, bool) {
    match op {
        SpecOp::AddRoute(rt) => match n.value {
            Some(v) => {
                if find_route(v.routes, rt.method) is Some {
                    (n, false)
                } else {
                    (
                        SpecNode {
                            key: n.key,
                            value: Some(
                                SpecValue {
                                    middlewares: v.middlewares,
                                    routes: insert_route_seq(v.routes, rt.method, rt),
                                },
                            ),
                            children: n.children,
                        },
                        true,
                    )
                }
            },
            None => (
                SpecNode {
                    key: n.key,
                    value: Some(SpecValue { middlewares: Seq::empty(), routes: seq![rt] }),
                    children: n.children,
                },
                true,
            ),
        },
        SpecOp::AddMiddleware(m) => match n.value {
            Some(v) => (
                SpecNode {
                    key: n.key,
                    value: Some(
                        SpecValue { middlewares: v.middlewares.push(m), routes: v.routes },
                    ),
                    children: n.children,
                },
                true,
            ),
            None => (
                SpecNode {
                    key: n.key,
                    value: Some(SpecValue { middlewares: seq![m], routes: Seq::empty() }),
                    children: n.children,
                },
                true,
            ),
        },
        SpecOp::Mount(src) => {
            if n.value is Some || n.children.len() > 0 {
                (n, false)
            } else {
                (SpecNode { key: n.key, value: src.value, children: src.children }, true)
            }
        },
    }
}

/// How many segments remain from position `si` on.
pub open spec fn segs_left(segs: Seq<Seq<char>>, si: int) -> int {
    if si <= segs.len() {
        segs.len() - si
    } else {
        0
    }
}

/// Continue an insertion below the node just reached: apply the terminal
/// operation when the path is exhausted, else insert the next segment.
pub open spec fn continue_model(n: SpecNode, segs: Seq<Seq<char>>, si: int, op: SpecOp) -> (
    SpecNode,
    bool,
)
    decreases segs_left(segs, si), 0int, n,
{
    if 0 <= si < segs.len() {
        insert_at_model(n, segs[si], segs, si + 1, op)
    } else {
        apply_op(n, op)
    }
}

/// Insert `key` (one segment, or the rest of one) below `n`, then go on
/// with the remaining segments. Returns the rebuilt node and whether the
/// insertion succeeded; a conflict leaves the concerned node as it stood,
/// though a split performed on the way down remains (it preserves every
/// registered route).
pub open spec fn insert_at_model(
    n: SpecNode,
    key: Seq<char>,
    segs: Seq<Seq<char>>,
    si: int,
    op: SpecOp,
) -> (SpecNode, bool)
    decreases segs_left(segs, si), 1int, n,
{
    let a = action_at(n.children, key, 0);
    let idx = a.payload.node_index as int;
    let mc = a.payload.match_count as int;
    match a.name {
        ActionName::CreateNewNode => {
            let fresh = SpecNode { key, value: None, children: Seq::empty() };
            let (built, ok) = continue_model(fresh, segs, si, op);
            let children = if key == seq!['*'] {
                n.children.push(built)
            } else {
                n.children.insert(0, built)
            };
            (SpecNode { key: n.key, value: n.value, children }, ok)
        },
        ActionName::NextNode => {
            let (child, ok) = continue_model(n.children[idx], segs, si, op);
            (
                SpecNode { key: n.key, value: n.value, children: n.children.update(idx, child) },
                ok,
            )
        },
        ActionName::SplitKey => {
            if idx < n.children.len() {
                let (child, ok) = insert_at_model(
                    n.children[idx],
                    key.subrange(mc, key.len() as int),
                    segs,
                    si,
                    op,
                );
                (
                    SpecNode {
                        key: n.key,
                        value: n.value,
                        children: n.children.update(idx, child),
                    },
                    ok,
                )
            } else {
                (n, false)
            }
        },
        ActionName::SplitNode => {
            let old_child = n.children[idx];
            let inter = SpecNode {
                key: old_child.key.subrange(mc, old_child.key.len() as int),
                value: old_child.value,
                children: old_child.children,
            };
            let base = SpecNode {
                key: key.subrange(0, mc),
                value: None,
                children: seq![inter],
            };
            if mc == key.len() {
                let (built, ok) = continue_model(base, segs, si, op);
                (
                    SpecNode {
                        key: n.key,
                        value: n.value,
                        children: n.children.update(idx, built),
                    },
                    ok,
                )
            } else {
                let fresh = SpecNode {
                    key: key.subrange(mc, key.len() as int),
                    value: None,
                    children: Seq::empty(),
                };
                let (built, ok) = continue_model(fresh, segs, si, op);
                let base2 = SpecNode {
                    key: base.key,
                    value: base.value,
                    children: base.children.insert(0, built),
                };
                (
                    SpecNode {
                        key: n.key,
                        value: n.value,
                        children: n.children.update(idx, base2),
                    },
                    ok,
                )
            }
        },
        ActionName::Error => (n, false),
    }
}

/// Apply the terminal operation at the node where the registered path
/// ends; see `apply_op` for what it does and when it refuses.
fn apply_terminal(node: &mut Node, op: TerminalOp) -> (r: Result<(), InternalError>)
    ensures
        ({
            let (m, ok) = apply_op(old(node)@, op@);
            final(node)@ == m && (r is Ok <==> ok)
        }),
{
    match op {
        TerminalOp::AddRoute(route) => {
            match node.value.take() {
                Some(mut val) => {
                    if val.route.get_route(&route.method).is_some() {
                        node.value = Some(val);
                        proof {
                            assert(final(node)@ =~= old(node)@);
                        }
                        Err(
                            InternalError::GeneralError(
                                String::from_str("duplicated route method at this path"),
                            ),
                        )
                    } else {
                        val.route.add_route(route.method, route);
                        node.value = Some(val);
                        proof {
                            assert(final(node)@ =~= apply_op(old(node)@, op@).0);
                        }
                        Ok(())
                    }
                },
                None => {
                    let mut val = RouteValue::default();
                    val.route.add_route(route.method, route);
                    node.value = Some(val);
                    proof {
                        assert(final(node)@ =~= apply_op(old(node)@, op@).0);
                    }
                    Ok(())
                },
            }
        },
        TerminalOp::AddMiddleware(m) => {
            match node.value.take() {
                Some(mut val) => {
                    val.middlewares.push(m);
                    node.value = Some(val);
                },
                None => {
                    let mut val = RouteValue::default();
                    val.middlewares.push(m);
                    node.value = Some(val);
                },
            }
            proof {
                assert(final(node)@ =~= apply_op(old(node)@, op@).0);
            }
            Ok(())
        },
        TerminalOp::Mount(src) => {
            if node.value.is_some() || node.child_nodes.len() > 0 {
                proof {
                    lemma_children_view(node.child_nodes@);
                    assert(final(node)@ =~= old(node)@);
                }
                Err(
                    InternalError::GeneralError(
                        String::from_str(
                            "conflict between main router and sub router at this path",
                        ),
                    ),
                )
            } else {
                let Node { key: _, value: src_value, child_nodes: src_kids } = src;
                node.value = src_value;
                node.child_nodes = src_kids;
                proof {
                    lemma_children_view(old(node).child_nodes@);
                    assert(final(node)@ =~= apply_op(old(node)@, op@).0);
                }
                Ok(())
            }
        },
    }
}

/// Continue below the node just reached: apply the terminal operation when
/// the path is exhausted, else insert the next segment.
fn continue_insert(node: &mut Node, segs: &Vec<String>, si: usize, op: TerminalOp) -> (r: Result<
    (),
    InternalError,
>)
    requires
        si <= segs@.len(),
    ensures
        ({
            let (m, ok) = continue_model(old(node)@, segs.deep_view(), si as int, op@);
            final(node)@ == m && (r is Ok <==> ok)
        }),
    decreases segs@.len() - si, 0int, *old(node),
{
    if si == segs.len() {
        apply_terminal(node, op)
    } else {
        proof {
            assert(segs.deep_view()[si as int] == segs@[si as int]@);
        }
        insert_at(node, segs[si].as_str(), segs, si + 1, op)
    }
}

/// Insert `key` (one path segment, or the rest of one) below this node,
/// then go on with the remaining segments `segs[si..]`, performing `op`
/// where the path ends. The node afterwards, and whether the call
/// succeeds, are exactly `insert_at_model`.
fn insert_at(node: &mut Node, key: &str, segs: &Vec<String>, si: usize, op: TerminalOp) -> (r:
    Result<(), InternalError>)
    requires
        si <= segs@.len(),
    ensures
        ({
            let (m, ok) = insert_at_model(old(node)@, key@, segs.deep_view(), si as int, op@);
            final(node)@ == m && (r is Ok <==> ok)
        }),
    decreases segs@.len() - si, 1int, *old(node),
{
    let klen = key.unicode_len();
    let children_len = node.child_nodes.len();
    let action = node.get_insertion_action(key);
    proof {
        lemma_children_view(node.child_nodes@);
        assert(node@.children.len() == children_len);
        lemma_action_at_props(node@.children, key@, 0);
    }
    match action.name {
        ActionName::CreateNewNode => {
            let mut fresh = Node::new(key.to_owned(), None);
            proof {
                assert(fresh@ == (SpecNode {
                    key: key@,
                    value: None,
                    children: Seq::<SpecNode>::empty(),
                }));
            }
            let r = continue_insert(&mut fresh, segs, si, op);
            proof {
                assert(r is Ok <==> insert_at_model(
                    old(node)@,
                    key@,
                    segs.deep_view(),
                    si as int,
                    op@,
                ).1);
            }
            let ghost before = node.child_nodes@;
            if is_wild_str(key) {
                node.child_nodes.push(fresh);
                proof {
                    lemma_children_view(node.child_nodes@);
                    lemma_children_view(before);
                    assert(children_view(node.child_nodes@) =~= children_view(before).push(
                        fresh@,
                    ));
                    assert(final(node)@ =~= insert_at_model(
                        old(node)@,
                        key@,
                        segs.deep_view(),
                        si as int,
                        op@,
                    ).0);
                }
            } else {
                node.child_nodes.insert(0, fresh);
                proof {
                    lemma_children_view(node.child_nodes@);
                    lemma_children_view(before);
                    assert(children_view(node.child_nodes@) =~= children_view(before).insert(
                        0,
                        fresh@,
                    ));
                    assert(final(node)@ =~= insert_at_model(
                        old(node)@,
                        key@,
                        segs.deep_view(),
                        si as int,
                        op@,
                    ).0);
                }
            }
            r
        },
        ActionName::NextNode => {
            let idx = action.payload.node_index;
            let mut child = node.child_nodes.remove(idx);
            let r = continue_insert(&mut child, segs, si, op);
            node.child_nodes.insert(idx, child);
            proof {
                lemma_children_view(node.child_nodes@);
                lemma_children_view(old(node).child_nodes@);
                assert(node.child_nodes@ =~= old(node).child_nodes@.update(idx as int, child));
                assert(children_view(node.child_nodes@) =~= children_view(
                    old(node).child_nodes@,
                ).update(idx as int, child@));
                assert(final(node)@ =~= insert_at_model(
                    old(node)@,
                    key@,
                    segs.deep_view(),
                    si as int,
                    op@,
                ).0);
            }
            r
        },
        ActionName::SplitKey => {
            let idx = action.payload.node_index;
            let count = action.payload.match_count;
            let mut child = node.child_nodes.remove(idx);
            let rem_key = key.substring_char(count, klen);
            let r = insert_at(&mut child, rem_key, segs, si, op);
            node.child_nodes.insert(idx, child);
            proof {
                lemma_children_view(node.child_nodes@);
                lemma_children_view(old(node).child_nodes@);
                assert(node.child_nodes@ =~= old(node).child_nodes@.update(idx as int, child));
                assert(children_view(node.child_nodes@) =~= children_view(
                    old(node).child_nodes@,
                ).update(idx as int, child@));
                assert(final(node)@ =~= insert_at_model(
                    old(node)@,
                    key@,
                    segs.deep_view(),
                    si as int,
                    op@,
                ).0);
            }
            r
        },
        ActionName::SplitNode => {
            let idx = action.payload.node_index;
            let count = action.payload.match_count;
            let ghost m_child = old(node)@.children[idx as int];
            let mut child = node.child_nodes.remove(idx);
            let cklen = child.key.unicode_len();
            let child_rem = child.key.substring_char(count, cklen).to_owned();
            let prefix = key.substring_char(0, count).to_owned();
            let Node { key: _, value: child_value, child_nodes: child_kids } = child;
            proof {
                lemma_children_view(child_kids@);
            }
            let inter = Node { key: child_rem, value: child_value, child_nodes: child_kids };
            let ghost inter_view = inter@;
            let mut base = Node { key: prefix, value: None, child_nodes: Vec::new() };
            base.child_nodes.push(inter);
            proof {
                lemma_children_view(base.child_nodes@);
                assert(inter_view == (SpecNode {
                    key: m_child.key.subrange(count as int, m_child.key.len() as int),
                    value: m_child.value,
                    children: m_child.children,
                }));
                assert(base@.children =~= seq![inter_view]);
                assert(base@ =~= (SpecNode {
                    key: key@.subrange(0, count as int),
                    value: None,
                    children: seq![inter_view],
                }));
            }
            let r;
            if count == klen {
                r = continue_insert(&mut base, segs, si, op);
                let ghost base_final = base@;
                node.child_nodes.insert(idx, base);
                proof {
                    lemma_children_view(node.child_nodes@);
                    lemma_children_view(old(node).child_nodes@);
                    assert(children_view(node.child_nodes@) =~= children_view(
                        old(node).child_nodes@,
                    ).update(idx as int, base_final));
                    assert(final(node)@ =~= insert_at_model(
                        old(node)@,
                        key@,
                        segs.deep_view(),
                        si as int,
                        op@,
                    ).0);
                }
            } else {
                let mut fresh = Node::new(key.substring_char(count, klen).to_owned(), None);
                proof {
                    assert(fresh@ == (SpecNode {
                        key: key@.subrange(count as int, key@.len() as int),
                        value: None,
                        children: Seq::<SpecNode>::empty(),
                    }));
                }
                r = continue_insert(&mut fresh, segs, si, op);
                let ghost fresh_final = fresh@;
                let ghost base_before = base.child_nodes@;
                base.child_nodes.insert(0, fresh);
                let ghost base_final = base@;
                proof {
                    lemma_children_view(base.child_nodes@);
                    lemma_children_view(base_before);
                    assert(base_final.children =~= children_view(base_before).insert(
                        0,
                        fresh_final,
                    ));
                }
                node.child_nodes.insert(idx, base);
                proof {
                    lemma_children_view(node.child_nodes@);
                    lemma_children_view(old(node).child_nodes@);
                    assert(children_view(node.child_nodes@) =~= children_view(
                        old(node).child_nodes@,
                    ).update(idx as int, base_final));
                    assert(final(node)@ =~= insert_at_model(
                        old(node)@,
                        key@,
                        segs.deep_view(),
                        si as int,
                        op@,
                    ).0);
                }
            }
            r
        },
        ActionName::Error => {
            Err(
                InternalError::GeneralError(
                    String::from_str("ambiguous definition between sibling route segments"),
                ),
            )
        },
    }
}

/// The routing trie: a root node whose children spell, segment by segment
/// and prefix by prefix, every registered path.
#[derive(Debug)]
pub struct RouteTrie {
    pub head: Node,
}

/// The trie after registering `route` at `path`, and whether registration
/// succeeds. A malformed wildcard, an ambiguous sibling, or a duplicated
/// method refuses; an empty path (only slashes) registers at the root.
pub open spec fn spec_insert_route(head: SpecNode, path: Seq<char>, route: Route) -> (
    SpecNode,
    bool,
) {
    let segs = split_segments(path);
    if !wild_ok(segs) {
        (head, false)
    } else if segs.len() == 0 {
        apply_op(head, SpecOp::AddRoute(route))
    } else {
        insert_at_model(head, segs[0], segs, 1, SpecOp::AddRoute(route))
    }
}

/// The trie after appending middleware `mw` at `path`. An empty path is a
/// silent no-op: root middleware goes through `insert_default_middleware`.
pub open spec fn spec_insert_middleware(head: SpecNode, path: Seq<char>, mw: u64) -> (
    SpecNode,
    bool,
) {
    let segs = split_segments(path);
    if !wild_ok(segs) {
        (head, false)
    } else if segs.len() == 0 {
        (head, true)
    } else {
        insert_at_model(head, segs[0], segs, 1, SpecOp::AddMiddleware(mw))
    }
}

/// The trie after grafting `src` at `path` inside `dest`: an empty path
/// replaces the whole root; otherwise the mount node must be fresh.
pub open spec fn spec_insert_sub_route(dest: SpecNode, path: Seq<char>, src: SpecNode) -> (
    SpecNode,
    bool,
) {
    let segs = split_segments(path);
    if !wild_ok(segs) {
        (dest, false)
    } else if segs.len() == 0 {
        (src, true)
    } else {
        insert_at_model(dest, segs[0], segs, 1, SpecOp::Mount(src))
    }
}

impl RouteTrie {
    /// An empty routing table: a root with no value and no children.
    pub fn new() -> (r: Self)
        ensures
            r.head@.key == "/"@,
            r.head@.value is None,
            r.head@.children == Seq::<SpecNode>::empty(),
    {
        RouteTrie { head: Node::new(String::from_str("/"), None) }
    }

    /// Append a middleware identifier at the root, so that it applies to
    /// every request the table resolves.
    pub fn insert_default_middleware(&mut self, middleware: u64)
        ensures
            final(self).head@ == apply_op(old(self).head@, SpecOp::AddMiddleware(middleware)).0,
    {
        let _r = apply_terminal(&mut self.head, TerminalOp::AddMiddleware(middleware));
    }

    /// Register `route` for `path`. Fails, leaving every registered route
    /// in place, on a malformed wildcard, an ambiguous definition against
    /// an existing sibling, or a method already registered at that path.
    pub fn insert_route(&mut self, path: &str, route: Route) -> (r: Result<(), InternalError>)
        ensures
            ({
                let (m, ok) = spec_insert_route(old(self).head@, path@, route);
                final(self).head@ == m && (r is Ok <==> ok)
            }),
    {
        let segs = split_path(path);
        if !check_wildcards(&segs) {
            return Err(
                InternalError::GeneralError(
                    String::from_str("a wildcard must be a whole segment and must come last"),
                ),
            );
        }
        if segs.len() == 0 {
            return apply_terminal(&mut self.head, TerminalOp::AddRoute(route));
        }
        proof {
            assert(segs.deep_view()[0] == segs@[0]@);
        }
        insert_at(&mut self.head, segs[0].as_str(), &segs, 1, TerminalOp::AddRoute(route))
    }

    /// Append a middleware identifier at `path`, creating the nodes down
    /// to it as a registration would. A path with no segments is ignored.
    pub fn insert_middleware(&mut self, path: &str, middleware: u64) -> (r: Result<
        (),
        InternalError,
    >)
        ensures
            ({
                let (m, ok) = spec_insert_middleware(old(self).head@, path@, middleware);
                final(self).head@ == m && (r is Ok <==> ok)
            }),
    {
        let segs = split_path(path);
        if !check_wildcards(&segs) {
            return Err(
                InternalError::GeneralError(
                    String::from_str("a wildcard must be a whole segment and must come last"),
                ),
            );
        }
        if segs.len() == 0 {
            return Ok(());
        }
        proof {
            assert(segs.deep_view()[0] == segs@[0]@);
        }
        insert_at(&mut self.head, segs[0].as_str(), &segs, 1, TerminalOp::AddMiddleware(middleware))
    }

    /// Graft `src` into `des` at `path`: the mount node adopts `src`'s
    /// root value and children. The mount point must not already carry
    /// routing data; an empty path replaces `des`'s whole root.
    pub fn insert_sub_route(des: &mut Self, path: &str, src: Self) -> (r: Result<
        (),
        InternalError,
    >)
        ensures
            ({
                let (m, ok) = spec_insert_sub_route(old(des).head@, path@, src.head@);
                final(des).head@ == m && (r is Ok <==> ok)
            }),
    {
        let segs = split_path(path);
        if !check_wildcards(&segs) {
            return Err(
                InternalError::GeneralError(
                    String::from_str("a wildcard must be a whole segment and must come last"),
                ),
            );
        }
        if segs.len() == 0 {
            des.head = src.head;
            return Ok(());
        }
        proof {
            assert(segs.deep_view()[0] == segs@[0]@);
        }
        insert_at(&mut des.head, segs[0].as_str(), &segs, 1, TerminalOp::Mount(src.head))
    }
}

/// What a successful match contributes: the terminal node's method table,
/// the parameters captured on the way, and the middleware identifiers of
/// every node entered, root side first.
#[verifier::ext_equal]
pub ghost struct SpecFound {
    pub routes: Seq<Route>,
    pub params: Map<Seq<char>, Seq<char>>,
    pub mws: Seq<u64>,
}

/// The middleware registered directly at a node, empty when it has no
/// value.
pub open spec fn value_mws(n: SpecNode) -> Seq<u64> {
    match n.value {
        Some(v) => v.middlewares,
        None => Seq::empty(),
    }
}

/// The value of the first wildcard child at or after position `j`, if a
/// wildcard child carrying a value exists: the trailing-slash fallback of
/// a fully matched node without a value of its own.
pub open spec fn wild_value_from(children: Seq<SpecNode>, j: int) -> Option<SpecValue>
    decreases children.len() - j,
{
    if j < 0 || j >= children.len() {
        None
    } else if children[j].key == seq!['*'] && children[j].value is Some {
        children[j].value
    } else {
        wild_value_from(children, j + 1)
    }
}

/// The backtracking match below `n`, child by child from position `i`.
///
/// `cur` is the text still to match at this level: a whole path segment,
/// or, after a literal edge consumed only part of one, its remainder — in
/// that case `is_break` bars the children from parameter and wildcard
/// matching, and only literal matching goes on. `segs[si..]` are the whole
/// segments that follow. The result carries the contributions of the
/// matched child and everything below it; the caller prepends its own.
pub open spec fn seek_from(
    n: SpecNode,
    cur: Seq<char>,
    segs: Seq<Seq<char>>,
    si: int,
    is_break: bool,
    i: int,
) -> Option<SpecFound>
    decreases n, segs_left(segs, si), n.children.len() - i,
{
    if i < 0 || i >= n.children.len() {
        None
    } else {
        let c = n.children[i];
        if !is_break && is_param_key(c.key) {
            if si >= segs.len() {
                match c.value {
                    Some(v) => Some(
                        SpecFound {
                            routes: v.routes,
                            params: Map::empty().insert(
                                c.key.subrange(1, c.key.len() as int),
                                cur,
                            ),
                            mws: v.middlewares,
                        },
                    ),
                    None => seek_from(n, cur, segs, si, is_break, i + 1),
                }
            } else {
                match seek_from(c, segs[si], segs, si + 1, false, 0) {
                    Some(f) => Some(
                        SpecFound {
                            routes: f.routes,
                            params: f.params.insert(c.key.subrange(1, c.key.len() as int), cur),
                            mws: value_mws(c) + f.mws,
                        },
                    ),
                    None => seek_from(n, cur, segs, si, is_break, i + 1),
                }
            }
        } else if !is_break && c.key == seq!['*'] {
            match c.value {
                Some(v) => Some(
                    SpecFound { routes: v.routes, params: Map::empty(), mws: v.middlewares },
                ),
                None => None,
            }
        } else {
            let cnt = common_prefix(cur, c.key);
            if cnt != 0 && cnt == c.key.len() && cnt == cur.len() {
                if si >= segs.len() {
                    match c.value {
                        Some(v) => Some(
                            SpecFound {
                                routes: v.routes,
                                params: Map::empty(),
                                mws: v.middlewares,
                            },
                        ),
                        None => match wild_value_from(c.children, 0) {
                            Some(wv) => Some(
                                SpecFound {
                                    routes: wv.routes,
                                    params: Map::empty(),
                                    mws: wv.middlewares,
                                },
                            ),
                            None => seek_from(n, cur, segs, si, is_break, i + 1),
                        },
                    }
                } else {
                    match seek_from(c, segs[si], segs, si + 1, false, 0) {
                        Some(f) => Some(
                            SpecFound {
                                routes: f.routes,
                                params: f.params,
                                mws: value_mws(c) + f.mws,
                            },
                        ),
                        None => seek_from(n, cur, segs, si, is_break, i + 1),
                    }
                }
            } else if cnt != 0 && cnt == c.key.len() {
                match seek_from(c, cur.subrange(cnt, cur.len() as int), segs, si, true, 0) {
                    Some(f) => Some(
                        SpecFound {
                            routes: f.routes,
                            params: f.params,
                            mws: value_mws(c) + f.mws,
                        },
                    ),
                    None => seek_from(n, cur, segs, si, is_break, i + 1),
                }
            } else {
                seek_from(n, cur, segs, si, is_break, i + 1)
            }
        }
    }
}

/// The outcome of searching `segs` in the trie rooted at `root`: `None`
/// when no registered path matches, else the matched method table, the
/// captured parameters, and the middleware accumulated root-first.
pub open spec fn search_model(root: SpecNode, segs: Seq<Seq<char>>) -> Option<SpecFound> {
    if segs.len() == 0 {
        match root.value {
            Some(v) => Some(
                SpecFound { routes: v.routes, params: Map::empty(), mws: v.middlewares },
            ),
            None => None,
        }
    } else {
        match seek_from(root, segs[0], segs, 1, false, 0) {
            Some(f) => Some(
                SpecFound {
                    routes: f.routes,
                    params: f.params,
                    mws: value_mws(root) + f.mws,
                },
            ),
            None => None,
        }
    }
}

/// What one successful match hands back up the executable search.
struct Found {
    routes: Vec<Route>,
    params: Params,
    mws: Vec<u64>,
}

/// The first wildcard child carrying a value, if any.
fn find_wild_value(node: &Node) -> (r: Option<&RouteValue>)
    ensures
        match r {
            Some(v) => wild_value_from(node@.children, 0) == Some(v@),
            None => wild_value_from(node@.children, 0) is None,
        },
{
    proof {
        lemma_children_view(node.child_nodes@);
    }
    let n = node.child_nodes.len();
    let mut i: usize = 0;
    while i < n
        invariant
            n == node.child_nodes.len(),
            i <= n,
            node@.children.len() == n,
            forall|j: int| 0 <= j < n ==> node@.children[j] == node.child_nodes@[j]@,
            wild_value_from(node@.children, 0) == wild_value_from(node@.children, i as int),
        decreases n - i,
    {
        let child = &node.child_nodes[i];
        if is_wild_str(child.key.as_str()) {
            match &child.value {
                Some(v) => {
                    return Some(v);
                },
                None => {},
            }
        }
        i = i + 1;
    }
    None
}

/// Prepend the middleware registered directly at `node` to `mws`.
fn prepend_value_mws(node: &Node, mws: Vec<u64>) -> (r: Vec<u64>)
    ensures
        r@ == value_mws(node@) + mws@,
{
    let mut front = match &node.value {
        Some(v) => copy_vec(&v.middlewares),
        None => Vec::new(),
    };
    let mut rest = mws;
    front.append(&mut rest);
    proof {
        assert(value_mws(node@) + mws@ =~= front@);
    }
    front
}

/// The matched value and its accumulated contributions, cloned out of a
/// terminal node value.
fn found_of_value(val: &RouteValue) -> (r: Found)
    ensures
        r.routes@ == val@.routes,
        r.params@ == Map::<Seq<char>, Seq<char>>::empty(),
        r.mws@ == val@.middlewares,
{
    Found {
        routes: copy_vec(&val.route.route_map),
        params: Params::new(Vec::new()),
        mws: copy_vec(&val.middlewares),
    }
}

/// The backtracking match below `node`; see `seek_from` for exactly what
/// it finds.
fn seek(node: &Node, cur: &str, segs: &Vec<String>, si: usize, is_break: bool) -> (r: Option<
    Found,
>)
    requires
        si <= segs@.len(),
    ensures
        match (r, seek_from(node@, cur@, segs.deep_view(), si as int, is_break, 0)) {
            (Some(f), Some(m)) => f.routes@ == m.routes && f.params@ == m.params && f.mws@
                == m.mws,
            (None, None) => true,
            _ => false,
        },
    decreases *node,
{
    proof {
        lemma_children_view(node.child_nodes@);
    }
    let n = node.child_nodes.len();
    let curlen = cur.unicode_len();
    let mut i: usize = 0;
    while i < n
        invariant
            si <= segs@.len(),
            n == node.child_nodes.len(),
            i <= n,
            curlen == cur@.len(),
            node@.children.len() == n,
            forall|j: int| 0 <= j < n ==> node@.children[j] == node.child_nodes@[j]@,
            seek_from(node@, cur@, segs.deep_view(), si as int, is_break, 0) == seek_from(
                node@,
                cur@,
                segs.deep_view(),
                si as int,
                is_break,
                i as int,
            ),
        decreases n - i,
    {
        let child = &node.child_nodes[i];
        if !is_break && child.is_param() {
            if si == segs.len() {
                match &child.value {
                    Some(val) => {
                        let mut f = found_of_value(val);
                        let name = child.key.substring_char(1, child.key.unicode_len()).to_owned();
                        f.params.add_params(name, cur.to_owned());
                        return Some(f);
                    },
                    None => {},
                }
            } else {
                proof {
                    assert(segs.deep_view()[si as int] == segs@[si as int]@);
                }
                match seek(child, segs[si].as_str(), segs, si + 1, false) {
                    Some(mut f) => {
                        let name = child.key.substring_char(1, child.key.unicode_len()).to_owned();
                        f.params.add_params(name, cur.to_owned());
                        f.mws = prepend_value_mws(child, f.mws);
                        return Some(f);
                    },
                    None => {},
                }
            }
            i = i + 1;
            continue ;
        }
        if !is_break && is_wild_str(child.key.as_str()) {
            match &child.value {
                Some(val) => {
                    return Some(found_of_value(val));
                },
                None => {
                    return None;
                },
            }
        }
        let count = common_prefix_len(cur, child.key.as_str());
        let cklen = child.key.unicode_len();
        proof {
            crate::segment::lemma_common_prefix_props(cur@, child.key@);
        }
        if count != 0 && count == cklen && count == curlen {
            if si == segs.len() {
                match &child.value {
                    Some(val) => {
                        return Some(found_of_value(val));
                    },
                    None => {
                        match find_wild_value(child) {
                            Some(wval) => {
                                return Some(found_of_value(wval));
                            },
                            None => {},
                        }
                    },
                }
            } else {
                proof {
                    assert(segs.deep_view()[si as int] == segs@[si as int]@);
                }
                match seek(child, segs[si].as_str(), segs, si + 1, false) {
                    Some(mut f) => {
                        f.mws = prepend_value_mws(child, f.mws);
                        return Some(f);
                    },
                    None => {},
                }
            }
        } else if count != 0 && count == cklen {
            let rem = cur.substring_char(count, curlen);
            match seek(child, rem, segs, si, true) {
                Some(mut f) => {
                    f.mws = prepend_value_mws(child, f.mws);
                    return Some(f);
                },
                None => {},
            }
        }
        i = i + 1;
    }
    None
}

impl RouteTrie {
    /// Search the table for `path`. `None` is the not-found outcome: no
    /// registered path matches. A match hands back the terminal node's
    /// whole method table, the middleware accumulated from the root to the
    /// match in registration order, and the captured parameters.
    pub fn search_route(&self, path: &str) -> (r: Option<RouteValueResult>)
        ensures
            match (r, search_model(self.head@, split_segments(path@))) {
                (Some(rvr), Some(m)) => rvr.route_value@.routes == m.routes
                    && rvr.route_value@.middlewares == m.mws && rvr.params@ == m.params,
                (None, None) => true,
                _ => false,
            },
    {
        let segs = split_path(path);
        if segs.len() == 0 {
            match &self.head.value {
                Some(val) => {
                    let f = found_of_value(val);
                    Some(
                        RouteValueResult::new(
                            RouteValue::new(f.mws, Resource { route_map: f.routes }),
                            f.params,
                        ),
                    )
                },
                None => None,
            }
        } else {
            proof {
                assert(segs.deep_view()[0] == segs@[0]@);
            }
            match seek(&self.head, segs[0].as_str(), &segs, 1, false) {
                Some(f) => {
                    let Found { routes, params, mws } = f;
                    let mws = prepend_value_mws(&self.head, mws);
                    Some(
                        RouteValueResult::new(
                            RouteValue::new(mws, Resource { route_map: routes }),
                            params,
                        ),
                    )
                },
                None => None,
            }
        }
    }
}

} // verus!
