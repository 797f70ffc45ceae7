use vstd::prelude::*;

use crate::route::find_route;
use crate::route::Route;
use crate::route::SpecValue;
use crate::segment::common_prefix;
use crate::segment::is_param_key;
use crate::segment::lemma_cpl_exact;
use crate::segment::lemma_next_slash_ge;
use crate::segment::next_slash;
use crate::segment::split_from;
use crate::segment::split_segments;
use crate::segment::wild_ok;
use crate::trie::action_at;
use crate::trie::apply_op;
use crate::trie::continue_model;
use crate::trie::search_model;
use crate::trie::seek_from;
use crate::trie::spec_insert_route;
use crate::trie::spec_insert_sub_route;
use crate::trie::value_mws;
use crate::trie::insert_at_model;
use crate::trie::wild_value_from;
use crate::trie::Action;
use crate::trie::ActionName;
use crate::trie::ActionPayload;
use crate::trie::SpecFound;
use crate::trie::SpecNode;
use crate::trie::SpecOp;

verus! {

// ---------------------------------------------------------------------
// Slash placement is insignificant: searching depends only on the
// sequence of non-empty segments, and that sequence ignores leading,
// trailing and repeated slashes.
// ---------------------------------------------------------------------
/// Two paths with the same non-empty segments resolve identically: the
/// whole search outcome is a function of `split_segments` alone.
pub proof fn lemma_search_depends_only_on_segments(root: SpecNode, p1: Seq<char>, p2: Seq<char>)
    requires
        split_segments(p1) == split_segments(p2),
    ensures
        search_model(root, split_segments(p1)) == search_model(root, split_segments(p2)),
{
}

proof fn lemma_next_slash_shift(c: Seq<char>, b: Seq<char>, j: int)
    requires
        0 <= j,
    ensures
        next_slash(c + b, c.len() + j) == c.len() + next_slash(b, j),
    decreases b.len() - j,
{
    if j >= b.len() {
        assert(next_slash(c + b, c.len() + j) == (c + b).len());
    } else {
        assert((c + b)[c.len() + j] == b[j]);
        if b[j] != '/' {
            lemma_next_slash_shift(c, b, j + 1);
        }
    }
}

/// Segments read past a whole prefix are the suffix's own segments.
proof fn lemma_split_from_shift(c: Seq<char>, b: Seq<char>, j: int)
    requires
        0 <= j,
    ensures
        split_from(c + b, c.len() + j) == split_from(b, j),
    decreases b.len() - j,
{
    if j >= b.len() {
    } else {
        assert((c + b)[c.len() + j] == b[j]);
        if b[j] == '/' {
            lemma_split_from_shift(c, b, j + 1);
        } else {
            lemma_next_slash_shift(c, b, j + 1);
            crate::segment::lemma_next_slash_ge(b, j + 1);
            let ns = next_slash(b, j + 1);
            assert((c + b).subrange(c.len() + j, c.len() + ns) =~= b.subrange(j, ns));
            lemma_split_from_shift(c, b, ns);
        }
    }
}

proof fn lemma_next_slash_prefix(a: Seq<char>, b: Seq<char>, j: int)
    requires
        0 <= j <= a.len(),
    ensures
        next_slash(a + seq!['/'] + b, j) == next_slash(a, j),
    decreases a.len() - j,
{
    let s = a + seq!['/'] + b;
    if j == a.len() {
        assert(s[j] == '/');
    } else {
        assert(s[j] == a[j]);
        if a[j] != '/' {
            lemma_next_slash_prefix(a, b, j + 1);
        }
    }
}

proof fn lemma_split_slash_concat_from(a: Seq<char>, b: Seq<char>, i: int)
    requires
        0 <= i <= a.len(),
    ensures
        split_from(a + seq!['/'] + b, i) == split_from(a, i) + split_segments(b),
    decreases a.len() - i,
{
    let s = a + seq!['/'] + b;
    if i == a.len() {
        assert(s[i] == '/');
        assert((a + seq!['/']).len() == a.len() + 1);
        assert(s =~= (a + seq!['/']) + b);
        lemma_split_from_shift(a + seq!['/'], b, 0);
        assert(split_from(s, i + 1) == split_segments(b));
        assert(split_from(a, i) =~= Seq::<Seq<char>>::empty());
        assert(Seq::<Seq<char>>::empty() + split_segments(b) =~= split_segments(b));
    } else {
        assert(s[i] == a[i]);
        if a[i] == '/' {
            lemma_split_slash_concat_from(a, b, i + 1);
        } else {
            lemma_next_slash_prefix(a, b, i + 1);
            crate::segment::lemma_next_slash_ge(a, i + 1);
            let ns = next_slash(a, i + 1);
            assert(s.subrange(i, ns) =~= a.subrange(i, ns));
            lemma_split_slash_concat_from(a, b, ns);
            assert(seq![a.subrange(i, ns)] + (split_from(a, ns) + split_segments(b)) =~= (seq![
                a.subrange(i, ns),
            ] + split_from(a, ns)) + split_segments(b));
        }
    }
}

/// A slash joins two paths segment-wise: the segments of `a / b` are the
/// segments of `a` followed by the segments of `b`. Leading, trailing and
/// repeated slashes all fall out of this: joining with the empty path adds
/// nothing, and joining twice adds nothing more.
pub proof fn lemma_split_slash_concat(a: Seq<char>, b: Seq<char>)
    ensures
        split_segments(a + seq!['/'] + b) == split_segments(a) + split_segments(b),
{
    lemma_split_slash_concat_from(a, b, 0);
}

/// A leading slash changes nothing.
pub proof fn lemma_split_leading_slash(p: Seq<char>)
    ensures
        split_segments(seq!['/'] + p) == split_segments(p),
{
    let e = Seq::<char>::empty();
    assert(e + seq!['/'] + p =~= seq!['/'] + p);
    lemma_split_slash_concat(e, p);
    assert(split_segments(e) =~= Seq::<Seq<char>>::empty());
    assert(Seq::<Seq<char>>::empty() + split_segments(p) =~= split_segments(p));
}

/// A trailing slash changes nothing.
pub proof fn lemma_split_trailing_slash(p: Seq<char>)
    ensures
        split_segments(p + seq!['/']) == split_segments(p),
{
    let e = Seq::<char>::empty();
    assert(p + seq!['/'] + e =~= p + seq!['/']);
    lemma_split_slash_concat(p, e);
    assert(split_segments(e) =~= Seq::<Seq<char>>::empty());
    assert(split_segments(p) + Seq::<Seq<char>>::empty() =~= split_segments(p));
}

/// A repeated slash changes nothing: doubling any joining slash leaves the
/// segments alone.
pub proof fn lemma_split_double_slash(a: Seq<char>, b: Seq<char>)
    ensures
        split_segments(a + seq!['/'] + (seq!['/'] + b)) == split_segments(a + seq!['/'] + b),
{
    lemma_split_slash_concat(a, seq!['/'] + b);
    lemma_split_leading_slash(b);
    lemma_split_slash_concat(a, b);
}

// ---------------------------------------------------------------------
// Middleware accumulation starts at the root: whatever a search matches,
// the root's own middleware identifiers open the accumulated list.
// ---------------------------------------------------------------------
/// Global middleware applies first: a successful search hands back a
/// middleware list that begins with the root's own, in order.
pub proof fn lemma_root_middleware_first(root: SpecNode, segs: Seq<Seq<char>>)
    requires
        search_model(root, segs) is Some,
    ensures
        ({
            let f = search_model(root, segs).unwrap();
            &&& f.mws.len() >= value_mws(root).len()
            &&& f.mws.take(value_mws(root).len() as int) == value_mws(root)
        }),
{
    let f = search_model(root, segs).unwrap();
    if segs.len() == 0 {
        assert(f.mws.take(value_mws(root).len() as int) =~= value_mws(root));
    } else {
        assert(f.mws.take(value_mws(root).len() as int) =~= value_mws(root));
    }
}

/// The backtracking match reads a node's children only, never its own
/// value: two roots with the same children match identically.
proof fn lemma_seek_ignores_value(
    n1: SpecNode,
    n2: SpecNode,
    cur: Seq<char>,
    segs: Seq<Seq<char>>,
    si: int,
    is_break: bool,
    i: int,
)
    requires
        n1.children == n2.children,
    ensures
        seek_from(n1, cur, segs, si, is_break, i) == seek_from(n2, cur, segs, si, is_break, i),
    decreases n1, crate::trie::segs_left(segs, si), n1.children.len() - i,
{
    if 0 <= i < n1.children.len() {
        lemma_seek_ignores_value(n1, n2, cur, segs, si, is_break, i + 1);
    }
}

/// Middleware registered at the root applies to every request: adding a
/// global middleware identifier changes no search outcome, except that
/// the identifier joins the accumulated list right after the root
/// middleware already registered — and an empty table starts answering
/// the root path with that middleware alone.
pub proof fn lemma_global_middleware_applies(root: SpecNode, segs: Seq<Seq<char>>, m: u64)
    ensures
        ({
            let root2 = apply_op(root, SpecOp::AddMiddleware(m)).0;
            match (search_model(root, segs), search_model(root2, segs)) {
                (Some(f), Some(f2)) => f2.routes == f.routes && f2.params == f.params && f2.mws
                    == value_mws(root).push(m) + f.mws.skip(value_mws(root).len() as int),
                (None, None) => true,
                (None, Some(f2)) => segs.len() == 0 && root.value is None && f2.routes == Seq::<
                    Route,
                >::empty() && f2.mws == seq![m],
                (Some(_), None) => false,
            }
        }),
{
    let root2 = apply_op(root, SpecOp::AddMiddleware(m)).0;
    if segs.len() == 0 {
        match root.value {
            Some(v) => {
                let f = search_model(root, segs).unwrap();
                let f2 = search_model(root2, segs).unwrap();
                assert(f.mws.skip(value_mws(root).len() as int) =~= Seq::<u64>::empty());
                assert(value_mws(root).push(m) + Seq::<u64>::empty() =~= f2.mws);
            },
            None => {
            },
        }
    } else {
        lemma_seek_ignores_value(root, root2, segs[0], segs, 1, false, 0);
        match seek_from(root, segs[0], segs, 1, false, 0) {
            Some(f0) => {
                let f = search_model(root, segs).unwrap();
                let f2 = search_model(root2, segs).unwrap();
                assert(value_mws(root2) =~= value_mws(root).push(m));
                assert(f.mws.skip(value_mws(root).len() as int) =~= f0.mws);
                assert(f2.mws =~= value_mws(root).push(m) + f0.mws);
            },
            None => {},
        }
    }
}

/// The backtracking match cares only about the segments still ahead:
/// dropping `k` already-consumed segments from the list and moving the
/// position back by `k` changes nothing.
proof fn lemma_seek_shift(
    n: SpecNode,
    cur: Seq<char>,
    segs: Seq<Seq<char>>,
    si: int,
    is_break: bool,
    i: int,
    k: int,
)
    requires
        0 <= k <= si,
        k <= segs.len(),
    ensures
        seek_from(n, cur, segs, si, is_break, i) == seek_from(
            n,
            cur,
            segs.skip(k),
            si - k,
            is_break,
            i,
        ),
    decreases n, crate::trie::segs_left(segs, si), n.children.len() - i,
{
    if 0 <= i < n.children.len() {
        let c = n.children[i];
        assert(segs.skip(k).len() == segs.len() - k);
        if si < segs.len() {
            assert(segs.skip(k)[si - k] == segs[si]);
            lemma_seek_shift(c, segs[si], segs, si + 1, false, 0, k);
        }
        let cnt = common_prefix(cur, c.key);
        if cnt != 0 && cnt == c.key.len() && cnt != cur.len() {
            lemma_seek_shift(c, cur.subrange(cnt, cur.len() as int), segs, si, true, 0, k);
        }
        lemma_seek_shift(n, cur, segs, si, is_break, i + 1, k);
    }
}

// ---------------------------------------------------------------------
// Not-found is definitive: a search can only hand back a method table
// that some node of the trie actually carries — it never invents one —
// and in a table with no values at all every search fails.
// ---------------------------------------------------------------------
/// Whether some node of the trie rooted at `n` carries the value `v`.
pub open spec fn node_has_value(n: SpecNode, v: SpecValue) -> bool
    decreases n,
{
    n.value == Some(v) || exists|i: int|
        0 <= i < n.children.len() && node_has_value(#[trigger] n.children[i], v)
}

proof fn lemma_wild_value_has(children: Seq<SpecNode>, j: int)
    requires
        wild_value_from(children, j) is Some,
    ensures
        exists|i: int|
            j <= i < children.len() && #[trigger] children[i].value == wild_value_from(
                children,
                j,
            ),
    decreases children.len() - j,
{
    if 0 <= j < children.len() {
        if children[j].key == seq!['*'] && children[j].value is Some {
        } else {
            lemma_wild_value_has(children, j + 1);
        }
    }
}

proof fn lemma_seek_finds_registered(
    n: SpecNode,
    cur: Seq<char>,
    segs: Seq<Seq<char>>,
    si: int,
    is_break: bool,
    i: int,
)
    requires
        seek_from(n, cur, segs, si, is_break, i) is Some,
    ensures
        exists|v: SpecValue|
            #[trigger] node_has_value(n, v) && v.routes == seek_from(
                n,
                cur,
                segs,
                si,
                is_break,
                i,
            ).unwrap().routes,
    decreases n, crate::trie::segs_left(segs, si), n.children.len() - i,
{
    let f = seek_from(n, cur, segs, si, is_break, i).unwrap();
    let c = n.children[i];
    if !is_break && is_param_key(c.key) {
        if si >= segs.len() {
            match c.value {
                Some(v) => {
                    assert(node_has_value(c, v));
                    assert(node_has_value(n, v));
                },
                None => {
                    lemma_seek_finds_registered(n, cur, segs, si, is_break, i + 1);
                },
            }
        } else {
            match seek_from(c, segs[si], segs, si + 1, false, 0) {
                Some(_) => {
                    lemma_seek_finds_registered(c, segs[si], segs, si + 1, false, 0);
                    let v = choose|v: SpecValue|
                        #[trigger] node_has_value(c, v) && v.routes == seek_from(
                            c,
                            segs[si],
                            segs,
                            si + 1,
                            false,
                            0,
                        ).unwrap().routes;
                    assert(node_has_value(n, v));
                },
                None => {
                    lemma_seek_finds_registered(n, cur, segs, si, is_break, i + 1);
                },
            }
        }
    } else if !is_break && c.key == seq!['*'] {
        let v = c.value.unwrap();
        assert(node_has_value(c, v));
        assert(node_has_value(n, v));
    } else {
        let cnt = common_prefix(cur, c.key);
        if cnt != 0 && cnt == c.key.len() && cnt == cur.len() {
            if si >= segs.len() {
                match c.value {
                    Some(v) => {
                        assert(node_has_value(c, v));
                        assert(node_has_value(n, v));
                    },
                    None => {
                        match wild_value_from(c.children, 0) {
                            Some(wv) => {
                                lemma_wild_value_has(c.children, 0);
                                let j = choose|j: int|
                                    0 <= j < c.children.len() && #[trigger] c.children[j].value
                                        == wild_value_from(c.children, 0);
                                assert(node_has_value(c.children[j], wv));
                                assert(node_has_value(c, wv));
                                assert(node_has_value(n, wv));
                            },
                            None => {
                                lemma_seek_finds_registered(n, cur, segs, si, is_break, i + 1);
                            },
                        }
                    },
                }
            } else {
                match seek_from(c, segs[si], segs, si + 1, false, 0) {
                    Some(_) => {
                        lemma_seek_finds_registered(c, segs[si], segs, si + 1, false, 0);
                        let v = choose|v: SpecValue|
                            #[trigger] node_has_value(c, v) && v.routes == seek_from(
                                c,
                                segs[si],
                                segs,
                                si + 1,
                                false,
                                0,
                            ).unwrap().routes;
                        assert(node_has_value(n, v));
                    },
                    None => {
                        lemma_seek_finds_registered(n, cur, segs, si, is_break, i + 1);
                    },
                }
            }
        } else if cnt != 0 && cnt == c.key.len() {
            let rem = cur.subrange(cnt, cur.len() as int);
            match seek_from(c, rem, segs, si, true, 0) {
                Some(_) => {
                    lemma_seek_finds_registered(c, rem, segs, si, true, 0);
                    let v = choose|v: SpecValue|
                        #[trigger] node_has_value(c, v) && v.routes == seek_from(
                            c,
                            rem,
                            segs,
                            si,
                            true,
                            0,
                        ).unwrap().routes;
                    assert(node_has_value(n, v));
                },
                None => {
                    lemma_seek_finds_registered(n, cur, segs, si, is_break, i + 1);
                },
            }
        } else {
            lemma_seek_finds_registered(n, cur, segs, si, is_break, i + 1);
        }
    }
}

/// A search never invents a match: whatever method table it hands back is
/// carried, word for word, by some node of the trie.
pub proof fn lemma_search_never_invents(root: SpecNode, segs: Seq<Seq<char>>)
    requires
        search_model(root, segs) is Some,
    ensures
        exists|v: SpecValue|
            #[trigger] node_has_value(root, v) && v.routes == search_model(
                root,
                segs,
            ).unwrap().routes,
{
    if segs.len() == 0 {
        let v = root.value.unwrap();
        assert(node_has_value(root, v));
    } else {
        lemma_seek_finds_registered(root, segs[0], segs, 1, false, 0);
    }
}

/// In a table with no routes at all — no value at the root, no children —
/// every search is a definitive not-found.
pub proof fn lemma_search_empty_trie(root: SpecNode, segs: Seq<Seq<char>>)
    requires
        root.value is None,
        root.children.len() == 0,
    ensures
        search_model(root, segs) is None,
{
}

// ---------------------------------------------------------------------
// Round trip: registering a path whose first segment opens a fresh edge,
// then searching a path of the same shape, finds exactly the registered
// route, with every parameter capture pinned.
// ---------------------------------------------------------------------
/// The segments a path splits into are never empty.
pub proof fn lemma_split_from_nonempty(s: Seq<char>, i: int)
    requires
        0 <= i,
    ensures
        forall|k: int|
            0 <= k < split_from(s, i).len() ==> #[trigger] split_from(s, i)[k].len() > 0,
    decreases s.len() - i,
{
    if i >= s.len() {
        assert(split_from(s, i).len() == 0);
    } else if s[i] == '/' {
        lemma_split_from_nonempty(s, i + 1);
        assert forall|k: int| 0 <= k < split_from(s, i).len() implies #[trigger] split_from(
            s,
            i,
        )[k].len() > 0 by {
            assert(split_from(s, i)[k] == split_from(s, i + 1)[k]);
        }
    } else {
        lemma_next_slash_ge(s, i + 1);
        let ns = next_slash(s, i + 1);
        lemma_split_from_nonempty(s, ns);
        assert forall|k: int| 0 <= k < split_from(s, i).len() implies #[trigger] split_from(
            s,
            i,
        )[k].len() > 0 by {
            if k == 0 {
                assert(split_from(s, i)[0] == s.subrange(i, ns));
            } else {
                assert(split_from(s, i)[k] == split_from(s, ns)[k - 1]);
            }
        }
    }
}

/// The parameter captures that matching the concrete segments
/// `qsegs[si..]` against the pattern segments `psegs[si..]` produces:
/// each `:name` pattern binds its name to the concrete segment at the
/// same position, inner bindings first, so an outer reuse of a name wins.
pub open spec fn param_map(psegs: Seq<Seq<char>>, qsegs: Seq<Seq<char>>, si: int) -> Map<
    Seq<char>,
    Seq<char>,
>
    decreases psegs.len() - si,
{
    if si < 0 || si >= psegs.len() {
        Map::empty()
    } else {
        let rest = param_map(psegs, qsegs, si + 1);
        if is_param_key(psegs[si]) {
            rest.insert(psegs[si].subrange(1, psegs[si].len() as int), qsegs[si])
        } else {
            rest
        }
    }
}

/// The fresh chain that registering `psegs[si..]` behind an edge labeled
/// `key` builds: one node per remaining segment, the route at the end.
pub open spec fn chain_of(key: Seq<char>, psegs: Seq<Seq<char>>, si: int, route: Route) -> SpecNode
    decreases psegs.len() - si,
{
    if si < 0 || si >= psegs.len() {
        SpecNode {
            key,
            value: Some(SpecValue { middlewares: Seq::empty(), routes: seq![route] }),
            children: Seq::empty(),
        }
    } else {
        SpecNode { key, value: None, children: seq![chain_of(psegs[si], psegs, si + 1, route)] }
    }
}

proof fn lemma_chain_round(
    key: Seq<char>,
    psegs: Seq<Seq<char>>,
    qsegs: Seq<Seq<char>>,
    si: int,
    route: Route,
)
    requires
        0 <= si <= psegs.len(),
        qsegs.len() == psegs.len(),
        key.len() > 0,
        !key.contains('*'),
        forall|j: int|
            si <= j < psegs.len() ==> (#[trigger] psegs[j]).len() > 0 && !psegs[j].contains('*'),
        forall|j: int|
            si <= j < psegs.len() ==> (!is_param_key(#[trigger] psegs[j]) ==> qsegs[j]
                == psegs[j]),
    ensures
        ({
            let fresh = SpecNode { key, value: None, children: Seq::empty() };
            let (built, ok) = continue_model(fresh, psegs, si, SpecOp::AddRoute(route));
            &&& ok
            &&& built == chain_of(key, psegs, si, route)
            &&& built.key == key
            &&& (si >= psegs.len() ==> built.value == Some(
                SpecValue { middlewares: Seq::empty(), routes: seq![route] },
            ))
            &&& (si < psegs.len() ==> built.value is None && seek_from(
                built,
                qsegs[si],
                qsegs,
                si + 1,
                false,
                0,
            ) == Some(
                SpecFound {
                    routes: seq![route],
                    params: param_map(psegs, qsegs, si),
                    mws: Seq::<u64>::empty(),
                },
            ))
        }),
    decreases psegs.len() - si,
{
    let fresh = SpecNode { key, value: None, children: Seq::empty() };
    if si >= psegs.len() {
        assert(continue_model(fresh, psegs, si, SpecOp::AddRoute(route)).0 =~= chain_of(
            key,
            psegs,
            si,
            route,
        ));
    } else {
        let pseg = psegs[si];
        let qseg = qsegs[si];
        assert(pseg.len() > 0 && !pseg.contains('*'));
        if pseg == seq!['*'] {
            assert(pseg.contains('*')) by {
                assert(pseg[0] == '*');
            }
        }
        lemma_chain_round(pseg, psegs, qsegs, si + 1, route);
        let fresh2 = SpecNode { key: pseg, value: None, children: Seq::empty() };
        let (built2, ok2) = continue_model(fresh2, psegs, si + 1, SpecOp::AddRoute(route));
        assert(Seq::<SpecNode>::empty().insert(0, built2) =~= seq![built2]);
        let built = SpecNode { key, value: None, children: seq![built2] };
        assert(continue_model(fresh, psegs, si, SpecOp::AddRoute(route)) == (built, ok2));
        assert(built =~= chain_of(key, psegs, si, route));
        // now the search side: match the concrete segment against the
        // one child of `built`
        if key == seq!['*'] {
            assert(key.contains('*')) by {
                assert(key[0] == '*');
            }
        }
        assert(built.children[0] == built2);
        assert(built.children.len() == 1);
        assert(seek_from(built, qseg, qsegs, si + 1, false, 1) is None);
        let name = pseg.subrange(1, pseg.len() as int);
        if is_param_key(pseg) {
            if si + 1 >= psegs.len() {
                assert(param_map(psegs, qsegs, si) =~= Map::<Seq<char>, Seq<char>>::empty().insert(
                    name,
                    qseg,
                ));
                assert(seek_from(built, qseg, qsegs, si + 1, false, 0) == Some(
                    SpecFound {
                        routes: seq![route],
                        params: param_map(psegs, qsegs, si),
                        mws: Seq::<u64>::empty(),
                    },
                ));
            } else {
                assert(value_mws(built2) + Seq::<u64>::empty() =~= Seq::<u64>::empty());
                assert(param_map(psegs, qsegs, si) == param_map(psegs, qsegs, si + 1).insert(
                    name,
                    qseg,
                ));
                assert(seek_from(built, qseg, qsegs, si + 1, false, 0) == Some(
                    SpecFound {
                        routes: seq![route],
                        params: param_map(psegs, qsegs, si),
                        mws: Seq::<u64>::empty(),
                    },
                ));
            }
        } else {
            assert(qseg == pseg);
            lemma_cpl_exact(qseg, pseg, pseg.len() as int);
            assert(common_prefix(qseg, built2.key) == pseg.len());
            assert(param_map(psegs, qsegs, si) == param_map(psegs, qsegs, si + 1));
            if si + 1 >= psegs.len() {
                assert(param_map(psegs, qsegs, si) =~= Map::<Seq<char>, Seq<char>>::empty());
                assert(seek_from(built, qseg, qsegs, si + 1, false, 0) == Some(
                    SpecFound {
                        routes: seq![route],
                        params: param_map(psegs, qsegs, si),
                        mws: Seq::<u64>::empty(),
                    },
                ));
            } else {
                assert(value_mws(built2) + Seq::<u64>::empty() =~= Seq::<u64>::empty());
                assert(seek_from(built, qseg, qsegs, si + 1, false, 0) == Some(
                    SpecFound {
                        routes: seq![route],
                        params: param_map(psegs, qsegs, si),
                        mws: Seq::<u64>::empty(),
                    },
                ));
            }
        }
    }
}

/// When none of the children at position `i` on accommodates `key`, the
/// chosen action is to create a new node.
proof fn lemma_action_fresh(children: Seq<SpecNode>, key: Seq<char>, i: int)
    requires
        0 <= i <= children.len(),
        !is_param_key(key),
        key.len() > 0,
        forall|j: int|
            0 <= j < children.len() ==> !is_param_key(#[trigger] children[j].key)
                && children[j].key.len() > 0 && common_prefix(key, children[j].key) == 0,
    ensures
        crate::trie::action_at(children, key, i) == (crate::trie::Action {
            name: crate::trie::ActionName::CreateNewNode,
            payload: crate::trie::ActionPayload { match_count: 0, node_index: 0 },
        }),
    decreases children.len() - i,
{
    if i < children.len() {
        assert(!is_param_key(children[i].key));
        assert(common_prefix(key, children[i].key) == 0);
        assert(children[i].key.len() > 0 || children[i].key.len() == 0);
        crate::segment::lemma_common_prefix_props(key, children[i].key);
        lemma_action_fresh(children, key, i + 1);
    }
}

/// Registering a path whose first segment is literal and opens a fresh
/// edge — no existing child is a parameter, and none shares a first
/// character with it — succeeds, and searching any path with the same
/// shape then finds exactly the registered route: a concrete path with
/// one segment per pattern segment, equal at the literal positions and
/// arbitrary at the `:name` positions, resolves to the registered
/// handler, captures exactly the name-to-segment bindings, and
/// accumulates the root's own middleware and nothing else.
pub proof fn lemma_register_then_search(
    head: SpecNode,
    path: Seq<char>,
    route: Route,
    qsegs: Seq<Seq<char>>,
)
    requires
        forall|j: int|
            0 <= j < head.children.len() ==> !is_param_key(#[trigger] head.children[j].key)
                && head.children[j].key.len() > 0 && common_prefix(
                split_segments(path)[0],
                head.children[j].key,
            ) == 0,
        split_segments(path).len() > 0,
        qsegs.len() == split_segments(path).len(),
        !is_param_key(split_segments(path)[0]),
        forall|i: int|
            0 <= i < split_segments(path).len() ==> !(#[trigger] split_segments(
                path,
            )[i]).contains('*'),
        forall|i: int|
            0 <= i < split_segments(path).len() ==> (!is_param_key(
                #[trigger] split_segments(path)[i],
            ) ==> qsegs[i] == split_segments(path)[i]),
    ensures
        ({
            let (t2, ok) = spec_insert_route(head, path, route);
            &&& ok
            &&& search_model(t2, qsegs) == Some(
                SpecFound {
                    routes: seq![route],
                    params: param_map(split_segments(path), qsegs, 0),
                    mws: value_mws(head),
                },
            )
            &&& find_route(seq![route], route.method) == Some(route)
        }),
{
    let psegs = split_segments(path);
    assert(wild_ok(psegs));
    lemma_split_from_nonempty(path, 0);
    if psegs[0] == seq!['*'] {
        assert(psegs[0].contains('*')) by {
            assert(psegs[0][0] == '*');
        }
    }
    lemma_chain_round(psegs[0], psegs, qsegs, 1, route);
    lemma_action_fresh(head.children, psegs[0], 0);
    let fresh = SpecNode { key: psegs[0], value: None, children: Seq::empty() };
    let (built, ok) = continue_model(fresh, psegs, 1, SpecOp::AddRoute(route));
    let t2 = SpecNode {
        key: head.key,
        value: head.value,
        children: head.children.insert(0, built),
    };
    assert(spec_insert_route(head, path, route) == (t2, ok));
    assert(t2.children[0] == built);
    assert(qsegs[0] == psegs[0]);
    lemma_cpl_exact(qsegs[0], psegs[0], psegs[0].len() as int);
    assert(common_prefix(qsegs[0], built.key) == psegs[0].len());
    assert(param_map(psegs, qsegs, 0) == param_map(psegs, qsegs, 1));
    if 1 >= psegs.len() {
        assert(param_map(psegs, qsegs, 0) =~= Map::<Seq<char>, Seq<char>>::empty());
        assert(seek_from(t2, qsegs[0], qsegs, 1, false, 0) == Some(
            SpecFound {
                routes: seq![route],
                params: param_map(psegs, qsegs, 0),
                mws: Seq::<u64>::empty(),
            },
        ));
    } else {
        assert(value_mws(built) + Seq::<u64>::empty() =~= Seq::<u64>::empty());
        assert(seek_from(t2, qsegs[0], qsegs, 1, false, 0) == Some(
            SpecFound {
                routes: seq![route],
                params: param_map(psegs, qsegs, 0),
                mws: Seq::<u64>::empty(),
            },
        ));
    }
    assert(value_mws(t2) + Seq::<u64>::empty() =~= value_mws(t2));
    assert(value_mws(t2) == value_mws(head));
}

// ---------------------------------------------------------------------
// Sub-router grafting: a router mounted under a fresh literal prefix
// answers, under that prefix, exactly what it answered on its own, with
// the host root's middleware opening the accumulated list.
// ---------------------------------------------------------------------
/// Children that are neither parameters nor wildcards and share no first
/// character with the segment never match it.
proof fn lemma_seek_no_match(n: SpecNode, cur: Seq<char>, segs: Seq<Seq<char>>, si: int, i: int)
    requires
        forall|j: int|
            i <= j < n.children.len() ==> !is_param_key((#[trigger] n.children[j]).key)
                && n.children[j].key != seq!['*'] && common_prefix(cur, n.children[j].key) == 0,
    ensures
        seek_from(n, cur, segs, si, false, i) is None,
    decreases n.children.len() - i,
{
    if 0 <= i < n.children.len() {
        lemma_seek_no_match(n, cur, segs, si, i + 1);
    }
}

proof fn lemma_mount_chain(
    key: Seq<char>,
    psegs: Seq<Seq<char>>,
    sub: Seq<Seq<char>>,
    si: int,
    src: SpecNode,
)
    requires
        0 <= si <= psegs.len(),
        sub.len() > 0,
        key.len() > 0,
        !is_param_key(key),
        !key.contains('*'),
        forall|j: int|
            si <= j < psegs.len() ==> (#[trigger] psegs[j]).len() > 0 && !is_param_key(psegs[j])
                && !psegs[j].contains('*'),
    ensures
        ({
            let fresh = SpecNode { key, value: None, children: Seq::empty() };
            let (built, ok) = continue_model(fresh, psegs, si, SpecOp::Mount(src));
            let all = psegs + sub;
            &&& ok
            &&& built.key == key
            &&& (si == psegs.len() ==> built == (SpecNode {
                key,
                value: src.value,
                children: src.children,
            }))
            &&& (si < psegs.len() ==> built.value is None && seek_from(
                built,
                all[si],
                all,
                si + 1,
                false,
                0,
            ) == (match seek_from(src, sub[0], sub, 1, false, 0) {
                Some(f) => Some(
                    SpecFound {
                        routes: f.routes,
                        params: f.params,
                        mws: value_mws(src) + f.mws,
                    },
                ),
                None => None,
            }))
        }),
    decreases psegs.len() - si,
{
    let fresh = SpecNode { key, value: None, children: Seq::empty() };
    let all = psegs + sub;
    if si == psegs.len() {
    } else {
        let seg = psegs[si];
        if seg == seq!['*'] {
            assert(seg.contains('*')) by {
                assert(seg[0] == '*');
            }
        }
        lemma_mount_chain(seg, psegs, sub, si + 1, src);
        let fresh2 = SpecNode { key: seg, value: None, children: Seq::empty() };
        let (built2, ok2) = continue_model(fresh2, psegs, si + 1, SpecOp::Mount(src));
        assert(Seq::<SpecNode>::empty().insert(0, built2) =~= seq![built2]);
        let built = SpecNode { key, value: None, children: seq![built2] };
        assert(continue_model(fresh, psegs, si, SpecOp::Mount(src)) == (built, ok2));
        if key == seq!['*'] {
            assert(key.contains('*')) by {
                assert(key[0] == '*');
            }
        }
        assert(all[si] == seg);
        lemma_cpl_exact(seg, seg, seg.len() as int);
        assert(common_prefix(all[si], built2.key) == seg.len());
        assert(si + 1 < all.len());
        assert(built.children[0] == built2);
        assert(built.children.len() == 1);
        assert(!is_param_key(built2.key));
        assert(built2.key != seq!['*']);
        assert(seek_from(built, all[si], all, si + 1, false, 1) is None);
        let inner = seek_from(src, sub[0], sub, 1, false, 0);
        if si + 1 == psegs.len() {
            assert(built2 == (SpecNode { key: seg, value: src.value, children: src.children }));
            assert(all[si + 1] == sub[0]);
            lemma_seek_shift(built2, sub[0], all, si + 2, false, 0, psegs.len() as int);
            assert(all.skip(psegs.len() as int) =~= sub);
            lemma_seek_ignores_value(built2, src, sub[0], sub, 1, false, 0);
            assert(seek_from(built2, all[si + 1], all, si + 2, false, 0) == inner);
            assert(value_mws(built2) == value_mws(src));
            match inner {
                Some(f) => {
                    assert(seek_from(built, all[si], all, si + 1, false, 0) == Some(
                        SpecFound {
                            routes: f.routes,
                            params: f.params,
                            mws: value_mws(src) + f.mws,
                        },
                    ));
                },
                None => {
                    assert(seek_from(built, all[si], all, si + 1, false, 0) is None);
                },
            }
        } else {
            match inner {
                Some(f) => {
                    assert(Seq::<u64>::empty() + (value_mws(src) + f.mws) =~= value_mws(src)
                        + f.mws);
                    assert(seek_from(built, all[si], all, si + 1, false, 0) == Some(
                        SpecFound {
                            routes: f.routes,
                            params: f.params,
                            mws: value_mws(src) + f.mws,
                        },
                    ));
                },
                None => {
                    assert(seek_from(built, all[si], all, si + 1, false, 0) is None);
                },
            }
        }
    }
}

/// Mounting a sub-router under a fresh literal prefix succeeds, and the
/// mounted routes then answer under that prefix exactly as they answered
/// in the sub-router alone: same method table, same captures, and the
/// host root's middleware opening the accumulated list. Paths the
/// sub-router did not answer stay unanswered under the prefix.
pub proof fn lemma_mount_then_search(
    dest: SpecNode,
    path: Seq<char>,
    src: SpecNode,
    sub: Seq<Seq<char>>,
)
    requires
        forall|j: int|
            0 <= j < dest.children.len() ==> !is_param_key(#[trigger] dest.children[j].key)
                && dest.children[j].key != seq!['*'] && dest.children[j].key.len() > 0
                && common_prefix(split_segments(path)[0], dest.children[j].key) == 0,
        split_segments(path).len() > 0,
        forall|i: int|
            0 <= i < split_segments(path).len() ==> !is_param_key(
                #[trigger] split_segments(path)[i],
            ) && !split_segments(path)[i].contains('*'),
        sub.len() > 0,
    ensures
        ({
            let (t2, ok) = spec_insert_sub_route(dest, path, src);
            let psegs = split_segments(path);
            &&& ok
            &&& match (search_model(src, sub), search_model(t2, psegs + sub)) {
                (Some(f), Some(f2)) => f2.routes == f.routes && f2.params == f.params && f2.mws
                    == value_mws(dest) + f.mws,
                (None, None) => true,
                _ => false,
            }
        }),
{
    let psegs = split_segments(path);
    let all = psegs + sub;
    assert(wild_ok(psegs));
    lemma_split_from_nonempty(path, 0);
    if psegs[0] == seq!['*'] {
        assert(psegs[0].contains('*')) by {
            assert(psegs[0][0] == '*');
        }
    }
    lemma_mount_chain(psegs[0], psegs, sub, 1, src);
    lemma_action_fresh(dest.children, psegs[0], 0);
    let fresh = SpecNode { key: psegs[0], value: None, children: Seq::empty() };
    let (built, ok) = continue_model(fresh, psegs, 1, SpecOp::Mount(src));
    let t2 = SpecNode {
        key: dest.key,
        value: dest.value,
        children: dest.children.insert(0, built),
    };
    assert(spec_insert_sub_route(dest, path, src) == (t2, ok));
    assert(t2.children[0] == built);
    assert(all[0] == psegs[0]);
    lemma_cpl_exact(psegs[0], psegs[0], psegs[0].len() as int);
    assert(common_prefix(all[0], built.key) == psegs[0].len());
    assert(1 < all.len());
    assert(!is_param_key(built.key));
    assert(built.key != seq!['*']);
    assert forall|j: int| 1 <= j < t2.children.len() implies !is_param_key(
        (#[trigger] t2.children[j]).key,
    ) && t2.children[j].key != seq!['*'] && common_prefix(all[0], t2.children[j].key) == 0 by {
        assert(t2.children[j] == dest.children[j - 1]);
    }
    lemma_seek_no_match(t2, all[0], all, 1, 1);
    let inner = seek_from(src, sub[0], sub, 1, false, 0);
    if 1 == psegs.len() {
        assert(built == (SpecNode { key: psegs[0], value: src.value, children: src.children }));
        assert(all[1] == sub[0]);
        lemma_seek_shift(built, sub[0], all, 2, false, 0, psegs.len() as int);
        assert(all.skip(psegs.len() as int) =~= sub);
        lemma_seek_ignores_value(built, src, sub[0], sub, 1, false, 0);
        assert(seek_from(built, all[1], all, 2, false, 0) == inner);
        assert(value_mws(built) == value_mws(src));
        match inner {
            Some(f) => {
                assert(seek_from(t2, all[0], all, 1, false, 0) == Some(
                    SpecFound {
                        routes: f.routes,
                        params: f.params,
                        mws: value_mws(src) + f.mws,
                    },
                ));
            },
            None => {
                assert(seek_from(t2, all[0], all, 1, false, 0) is None);
            },
        }
    } else {
        match inner {
            Some(f) => {
                assert(Seq::<u64>::empty() + (value_mws(src) + f.mws) =~= value_mws(src)
                    + f.mws);
                assert(seek_from(t2, all[0], all, 1, false, 0) == Some(
                    SpecFound {
                        routes: f.routes,
                        params: f.params,
                        mws: value_mws(src) + f.mws,
                    },
                ));
            },
            None => {
                assert(seek_from(t2, all[0], all, 1, false, 0) is None);
            },
        }
    }
    assert(value_mws(t2) == value_mws(dest));
}

// ---------------------------------------------------------------------
// Conflict detection: registering a path that collides with a parameter
// or wildcard sibling at its last segment fails, and the failed attempt
// leaves the whole table exactly as it stood.
// ---------------------------------------------------------------------
/// Inserting along an existing fresh chain whose segments agree until the
/// last, where a parameter or wildcard collision waits, fails without
/// changing the chain.
proof fn lemma_conflict_walk(
    key: Seq<char>,
    psegs: Seq<Seq<char>>,
    p2segs: Seq<Seq<char>>,
    si: int,
    route: Route,
    route2: Route,
)
    requires
        p2segs.len() == psegs.len(),
        psegs.len() >= 1,
        0 <= si <= psegs.len() - 1,
        forall|j: int| 0 <= j < psegs.len() ==> (#[trigger] psegs[j]).len() > 0,
        forall|j: int| si <= j < psegs.len() - 1 ==> #[trigger] p2segs[j] == psegs[j],
        is_param_key(psegs[psegs.len() - 1]) || is_param_key(p2segs[psegs.len() - 1]),
        p2segs[psegs.len() - 1] != psegs[psegs.len() - 1],
    ensures
        insert_at_model(
            chain_of(key, psegs, si, route),
            p2segs[si],
            p2segs,
            si + 1,
            SpecOp::AddRoute(route2),
        ) == (chain_of(key, psegs, si, route), false),
    decreases psegs.len() - si,
{
    let node = chain_of(key, psegs, si, route);
    let child = chain_of(psegs[si], psegs, si + 1, route);
    assert(node.children == seq![child]);
    assert(node.children[0] == child);
    assert(node.children.len() == 1);
    let n = psegs.len() as int;
    if si == n - 1 {
        // the collision: a parameter or wildcard sibling with another key
        assert(is_param_key(child.key) || is_param_key(p2segs[si]));
        assert(p2segs[si] != child.key);
        assert(action_at(node.children, p2segs[si], 0).name == ActionName::Error);
    } else {
        // the keys agree here: descend and come back unchanged
        assert(p2segs[si] == psegs[si]);
        if !is_param_key(child.key) {
            lemma_cpl_exact(p2segs[si], child.key, child.key.len() as int);
        }
        assert(action_at(node.children, p2segs[si], 0) == (Action {
            name: ActionName::NextNode,
            payload: ActionPayload {
                match_count: if is_param_key(child.key) {
                    0
                } else {
                    child.key.len() as usize
                },
                node_index: 0,
            },
        }));
        lemma_conflict_walk(psegs[si], psegs, p2segs, si + 1, route, route2);
        assert(continue_model(child, p2segs, si + 1, SpecOp::AddRoute(route2)) == (child, false));
        assert(node.children.update(0, child) =~= node.children);
        assert(insert_at_model(node, p2segs[si], p2segs, si + 1, SpecOp::AddRoute(route2)).0
            =~= node);
    }
}

/// Conflicting registrations fail fast and change nothing: register a
/// path whose first segment opens a fresh edge; a second registration
/// whose segments agree with it up to the last, where one side is a
/// parameter capture and the other anything else — another parameter, a
/// wildcard, or a literal — is refused, and the whole table stays exactly
/// as the first registration left it.
pub proof fn lemma_register_then_conflict(
    head: SpecNode,
    path: Seq<char>,
    route: Route,
    p2segs: Seq<Seq<char>>,
    route2: Route,
)
    requires
        forall|j: int|
            0 <= j < head.children.len() ==> !is_param_key(#[trigger] head.children[j].key)
                && head.children[j].key.len() > 0 && common_prefix(
                split_segments(path)[0],
                head.children[j].key,
            ) == 0,
        split_segments(path).len() > 0,
        !is_param_key(split_segments(path)[0]),
        forall|i: int|
            0 <= i < split_segments(path).len() ==> !(#[trigger] split_segments(
                path,
            )[i]).contains('*'),
        p2segs.len() == split_segments(path).len(),
        p2segs.len() >= 2,
        wild_ok(p2segs),
        forall|j: int|
            0 <= j < p2segs.len() - 1 ==> #[trigger] p2segs[j] == split_segments(path)[j],
        is_param_key(split_segments(path)[split_segments(path).len() - 1]) || is_param_key(
            p2segs[p2segs.len() - 1],
        ),
        p2segs[p2segs.len() - 1] != split_segments(path)[split_segments(path).len() - 1],
    ensures
        ({
            let (t2, ok) = spec_insert_route(head, path, route);
            &&& ok
            &&& insert_at_model(t2, p2segs[0], p2segs, 1, SpecOp::AddRoute(route2)) == (t2, false)
        }),
{
    let psegs = split_segments(path);
    assert(wild_ok(psegs));
    lemma_split_from_nonempty(path, 0);
    if psegs[0] == seq!['*'] {
        assert(psegs[0].contains('*')) by {
            assert(psegs[0][0] == '*');
        }
    }
    lemma_chain_round(psegs[0], psegs, psegs, 1, route);
    lemma_action_fresh(head.children, psegs[0], 0);
    let fresh = SpecNode { key: psegs[0], value: None, children: Seq::empty() };
    let (built, ok) = continue_model(fresh, psegs, 1, SpecOp::AddRoute(route));
    let t2 = SpecNode {
        key: head.key,
        value: head.value,
        children: head.children.insert(0, built),
    };
    assert(spec_insert_route(head, path, route) == (t2, ok));
    assert(built == chain_of(psegs[0], psegs, 1, route));
    assert(t2.children[0] == built);
    // the second registration follows the agreeing first segment
    assert(p2segs[0] == psegs[0]);
    lemma_cpl_exact(p2segs[0], built.key, built.key.len() as int);
    assert(action_at(t2.children, p2segs[0], 0) == (Action {
        name: ActionName::NextNode,
        payload: ActionPayload { match_count: built.key.len() as usize, node_index: 0 },
    }));
    lemma_conflict_walk(psegs[0], psegs, p2segs, 1, route, route2);
    assert(continue_model(built, p2segs, 1, SpecOp::AddRoute(route2)) == (built, false));
    assert(t2.children.update(0, built) =~= t2.children);
    assert(insert_at_model(t2, p2segs[0], p2segs, 1, SpecOp::AddRoute(route2)).0 =~= t2);
}

// ---------------------------------------------------------------------
// Prefix splitting is lossless: registering two paths whose first
// segments share a proper prefix splits the shared edge, and both paths
// stay independently resolvable.
// ---------------------------------------------------------------------
proof fn lemma_param_map_literal(psegs: Seq<Seq<char>>, qsegs: Seq<Seq<char>>, si: int)
    requires
        forall|j: int| si <= j < psegs.len() ==> !is_param_key(#[trigger] psegs[j]),
    ensures
        param_map(psegs, qsegs, si) == Map::<Seq<char>, Seq<char>>::empty(),
    decreases psegs.len() - si,
{
    if 0 <= si < psegs.len() {
        lemma_param_map_literal(psegs, qsegs, si + 1);
    }
}

proof fn lemma_contains_subrange(s: Seq<char>, lo: int, hi: int, x: char)
    requires
        0 <= lo <= hi <= s.len(),
        s.subrange(lo, hi).contains(x),
    ensures
        s.contains(x),
{
    let sub = s.subrange(lo, hi);
    let k = choose|k: int| 0 <= k < sub.len() && sub[k] == x;
    assert(s[lo + k] == x);
}

/// Registering two paths whose first segments share a proper common
/// prefix — as long as both paths are plain literals and the first opens
/// a fresh edge — succeeds twice, splitting the shared edge, and both
/// paths then resolve to their own routes, with the root's middleware and
/// nothing else accumulated.
pub proof fn lemma_register_two_with_split(
    head: SpecNode,
    p1: Seq<char>,
    route1: Route,
    p2: Seq<char>,
    route2: Route,
)
    requires
        forall|j: int|
            0 <= j < head.children.len() ==> !is_param_key(#[trigger] head.children[j].key)
                && head.children[j].key.len() > 0 && common_prefix(
                split_segments(p1)[0],
                head.children[j].key,
            ) == 0,
        split_segments(p1).len() > 0,
        split_segments(p2).len() > 0,
        forall|i: int|
            0 <= i < split_segments(p1).len() ==> !is_param_key(
                #[trigger] split_segments(p1)[i],
            ) && !split_segments(p1)[i].contains('*'),
        forall|i: int|
            0 <= i < split_segments(p2).len() ==> !is_param_key(
                #[trigger] split_segments(p2)[i],
            ) && !split_segments(p2)[i].contains('*'),
        split_segments(p2)[0].len() <= usize::MAX,
        0 < common_prefix(split_segments(p2)[0], split_segments(p1)[0]),
        common_prefix(split_segments(p2)[0], split_segments(p1)[0]) < split_segments(
            p1,
        )[0].len(),
        common_prefix(split_segments(p2)[0], split_segments(p1)[0]) < split_segments(
            p2,
        )[0].len(),
    ensures
        ({
            let (t1, ok1) = spec_insert_route(head, p1, route1);
            let (t2, ok2) = spec_insert_route(t1, p2, route2);
            &&& ok1
            &&& ok2
            &&& search_model(t2, split_segments(p1)) == Some(
                SpecFound {
                    routes: seq![route1],
                    params: Map::<Seq<char>, Seq<char>>::empty(),
                    mws: value_mws(head),
                },
            )
            &&& search_model(t2, split_segments(p2)) == Some(
                SpecFound {
                    routes: seq![route2],
                    params: Map::<Seq<char>, Seq<char>>::empty(),
                    mws: value_mws(head),
                },
            )
        }),
{
    let p1segs = split_segments(p1);
    let p2segs = split_segments(p2);
    let a = p1segs[0];
    let b = p2segs[0];
    let c = common_prefix(b, a);
    crate::segment::lemma_common_prefix_props(b, a);
    assert((c as usize) as int == c);
    lemma_split_from_nonempty(p1, 0);
    lemma_split_from_nonempty(p2, 0);
    assert(wild_ok(p1segs));
    assert(wild_ok(p2segs));

    // ---- first registration: a fresh chain for p1
    if a == seq!['*'] {
        assert(a.contains('*')) by {
            assert(a[0] == '*');
        }
    }
    lemma_chain_round(a, p1segs, p1segs, 1, route1);
    lemma_action_fresh(head.children, a, 0);
    let fresh1 = SpecNode { key: a, value: None, children: Seq::empty() };
    let (built1, ok1) = continue_model(fresh1, p1segs, 1, SpecOp::AddRoute(route1));
    let t1 = SpecNode {
        key: head.key,
        value: head.value,
        children: head.children.insert(0, built1),
    };
    assert(spec_insert_route(head, p1, route1) == (t1, ok1));
    assert(built1 == chain_of(a, p1segs, 1, route1));
    assert(t1.children[0] == built1);
    lemma_param_map_literal(p1segs, p1segs, 1);
    lemma_param_map_literal(p2segs, p2segs, 1);

    // ---- second registration: the shared edge splits
    assert(action_at(t1.children, b, 0) == (Action {
        name: ActionName::SplitNode,
        payload: ActionPayload { match_count: c as usize, node_index: 0 },
    }));
    let arem = a.subrange(c, a.len() as int);
    let brem = b.subrange(c, b.len() as int);
    let inter = SpecNode { key: arem, value: built1.value, children: built1.children };
    let base = SpecNode { key: b.subrange(0, c), value: None, children: seq![inter] };
    if brem.contains('*') {
        lemma_contains_subrange(b, c, b.len() as int, '*');
    }
    assert(brem.len() > 0);
    lemma_chain_round(brem, p2segs, p2segs, 1, route2);
    let fresh2 = SpecNode { key: brem, value: None, children: Seq::empty() };
    let (built2, ok2) = continue_model(fresh2, p2segs, 1, SpecOp::AddRoute(route2));
    assert(built2 == chain_of(brem, p2segs, 1, route2));
    let base2 = SpecNode {
        key: base.key,
        value: base.value,
        children: base.children.insert(0, built2),
    };
    assert(base2.children =~= seq![built2, inter]);
    let t2 = SpecNode {
        key: t1.key,
        value: t1.value,
        children: t1.children.update(0, base2),
    };
    assert(insert_at_model(t1, b, p2segs, 1, SpecOp::AddRoute(route2)) == (t2, ok2));
    assert(spec_insert_route(t1, p2, route2) == (t2, ok2));
    assert(t2.children[0] == base2);
    assert(base2.children[0] == built2);
    assert(base2.children[1] == inter);
    assert(base2.children.len() == 2);

    // shared facts about the split keys
    assert(base2.key.len() == c);
    assert(!is_param_key(base2.key)) by {
        assert(base2.key[0] == b[0]);
    }
    assert(base2.key != seq!['*']) by {
        if base2.key == seq!['*'] {
            lemma_contains_subrange(b, 0, c, '*');
        }
    }
    assert(a[c] != b[c]);
    assert(arem[0] == a[c]);
    assert(brem[0] == b[c]);
    assert(inter.key == arem);
    assert(built2.key == brem);

    // ---- searching p1: the split edge consumes `a` only partly
    assert(forall|k: int| 0 <= k < c ==> a[k] == b[k]);
    lemma_cpl_exact(a, base2.key, c);
    assert(common_prefix(a, base2.key) == c);
    // inside the split node, only the old remainder matches
    lemma_cpl_exact(arem, built2.key, 0);
    lemma_cpl_exact(arem, inter.key, arem.len() as int);
    let inner1 = if 1 >= p1segs.len() {
        Some(
            SpecFound {
                routes: seq![route1],
                params: Map::<Seq<char>, Seq<char>>::empty(),
                mws: Seq::<u64>::empty(),
            },
        )
    } else {
        seek_from(built1, p1segs[1], p1segs, 2, false, 0)
    };
    if 1 < p1segs.len() {
        assert(inter.children == built1.children);
        lemma_seek_ignores_value(inter, built1, p1segs[1], p1segs, 2, false, 0);
        assert(seek_from(inter, p1segs[1], p1segs, 2, false, 0) == inner1);
        assert(inner1 == Some(
            SpecFound {
                routes: seq![route1],
                params: Map::<Seq<char>, Seq<char>>::empty(),
                mws: Seq::<u64>::empty(),
            },
        ));
    }
    assert(seek_from(base2, arem, p1segs, 1, true, 2) is None);
    assert(seek_from(base2, arem, p1segs, 1, true, 1) == Some(
        SpecFound {
            routes: seq![route1],
            params: Map::<Seq<char>, Seq<char>>::empty(),
            mws: Seq::<u64>::empty(),
        },
    )) by {
        if 1 >= p1segs.len() {
            assert(inter.value == built1.value);
            assert(built1.value == Some(
                SpecValue { middlewares: Seq::empty(), routes: seq![route1] },
            ));
        } else {
            assert(value_mws(inter) =~= Seq::<u64>::empty());
            assert(value_mws(inter) + Seq::<u64>::empty() =~= Seq::<u64>::empty());
        }
    }
    assert(seek_from(base2, arem, p1segs, 1, true, 0) == Some(
        SpecFound {
            routes: seq![route1],
            params: Map::<Seq<char>, Seq<char>>::empty(),
            mws: Seq::<u64>::empty(),
        },
    ));
    assert(seek_from(t2, a, p1segs, 1, false, 0) == Some(
        SpecFound {
            routes: seq![route1],
            params: Map::<Seq<char>, Seq<char>>::empty(),
            mws: Seq::<u64>::empty(),
        },
    )) by {
        assert(value_mws(base2) =~= Seq::<u64>::empty());
        assert(value_mws(base2) + Seq::<u64>::empty() =~= Seq::<u64>::empty());
    }
    assert(value_mws(t2) + Seq::<u64>::empty() =~= value_mws(t2));
    assert(value_mws(t2) == value_mws(head));

    // ---- searching p2: the split edge consumes `b` only partly
    lemma_cpl_exact(b, base2.key, c);
    assert(common_prefix(b, base2.key) == c);
    lemma_cpl_exact(brem, built2.key, brem.len() as int);
    let inner2 = if 1 >= p2segs.len() {
        Some(
            SpecFound {
                routes: seq![route2],
                params: Map::<Seq<char>, Seq<char>>::empty(),
                mws: Seq::<u64>::empty(),
            },
        )
    } else {
        seek_from(built2, p2segs[1], p2segs, 2, false, 0)
    };
    if 1 < p2segs.len() {
        assert(inner2 == Some(
            SpecFound {
                routes: seq![route2],
                params: Map::<Seq<char>, Seq<char>>::empty(),
                mws: Seq::<u64>::empty(),
            },
        ));
    }
    assert(seek_from(base2, brem, p2segs, 1, true, 0) == Some(
        SpecFound {
            routes: seq![route2],
            params: Map::<Seq<char>, Seq<char>>::empty(),
            mws: Seq::<u64>::empty(),
        },
    )) by {
        if 1 >= p2segs.len() {
            assert(built2.value == Some(
                SpecValue { middlewares: Seq::empty(), routes: seq![route2] },
            ));
        } else {
            assert(value_mws(built2) =~= Seq::<u64>::empty());
            assert(value_mws(built2) + Seq::<u64>::empty() =~= Seq::<u64>::empty());
        }
    }
    assert(seek_from(t2, b, p2segs, 1, false, 0) == Some(
        SpecFound {
            routes: seq![route2],
            params: Map::<Seq<char>, Seq<char>>::empty(),
            mws: Seq::<u64>::empty(),
        },
    )) by {
        assert(value_mws(base2) =~= Seq::<u64>::empty());
        assert(value_mws(base2) + Seq::<u64>::empty() =~= Seq::<u64>::empty());
    }
}

// ---------------------------------------------------------------------
// The wildcard catches everything: a route registered with a trailing
// `*` answers every path that reaches it, however many segments follow.
// ---------------------------------------------------------------------
proof fn lemma_wild_chain_round(
    key: Seq<char>,
    psegs: Seq<Seq<char>>,
    qsegs: Seq<Seq<char>>,
    si: int,
    route: Route,
)
    requires
        1 <= si <= psegs.len() - 1,
        qsegs.len() >= psegs.len(),
        key.len() > 0,
        !key.contains('*'),
        psegs[psegs.len() - 1] == seq!['*'],
        forall|j: int|
            si <= j < psegs.len() - 1 ==> (#[trigger] psegs[j]).len() > 0 && !is_param_key(
                psegs[j],
            ) && !psegs[j].contains('*'),
        forall|j: int| si <= j < psegs.len() - 1 ==> #[trigger] qsegs[j] == psegs[j],
    ensures
        ({
            let fresh = SpecNode { key, value: None, children: Seq::empty() };
            let (built, ok) = continue_model(fresh, psegs, si, SpecOp::AddRoute(route));
            &&& ok
            &&& built == chain_of(key, psegs, si, route)
            &&& seek_from(built, qsegs[si], qsegs, si + 1, false, 0) == Some(
                SpecFound {
                    routes: seq![route],
                    params: Map::<Seq<char>, Seq<char>>::empty(),
                    mws: Seq::<u64>::empty(),
                },
            )
        }),
    decreases psegs.len() - si,
{
    let fresh = SpecNode { key, value: None, children: Seq::empty() };
    let n = psegs.len() as int;
    if si == n - 1 {
        // the tail: one wildcard node carrying the route
        let star = seq!['*'];
        let freshw = SpecNode { key: star, value: None, children: Seq::empty() };
        assert(psegs[si] == star);
        let leaf = apply_op(freshw, SpecOp::AddRoute(route)).0;
        assert(continue_model(freshw, psegs, si + 1, SpecOp::AddRoute(route)) == (leaf, true));
        assert(leaf == (SpecNode {
            key: star,
            value: Some(SpecValue { middlewares: Seq::empty(), routes: seq![route] }),
            children: Seq::empty(),
        }));
        assert(Seq::<SpecNode>::empty().push(leaf) =~= seq![leaf]);
        let built = SpecNode { key, value: None, children: seq![leaf] };
        assert(continue_model(fresh, psegs, si, SpecOp::AddRoute(route)) == (built, true));
        assert(chain_of(star, psegs, si + 1, route) =~= leaf);
        assert(built =~= chain_of(key, psegs, si, route));
        // any current segment falls to the wildcard child at once
        assert(built.children[0] == leaf);
        assert(seek_from(built, qsegs[si], qsegs, si + 1, false, 0) == Some(
            SpecFound {
                routes: seq![route],
                params: Map::<Seq<char>, Seq<char>>::empty(),
                mws: Seq::<u64>::empty(),
            },
        ));
    } else {
        let pseg = psegs[si];
        assert(pseg.len() > 0 && !pseg.contains('*'));
        if pseg == seq!['*'] {
            assert(pseg.contains('*')) by {
                assert(pseg[0] == '*');
            }
        }
        lemma_wild_chain_round(pseg, psegs, qsegs, si + 1, route);
        let fresh2 = SpecNode { key: pseg, value: None, children: Seq::empty() };
        let (built2, ok2) = continue_model(fresh2, psegs, si + 1, SpecOp::AddRoute(route));
        assert(built2 == chain_of(pseg, psegs, si + 1, route));
        assert(built2.key == pseg);
        assert(Seq::<SpecNode>::empty().insert(0, built2) =~= seq![built2]);
        let built = SpecNode { key, value: None, children: seq![built2] };
        assert(continue_model(fresh, psegs, si, SpecOp::AddRoute(route)) == (built, ok2));
        assert(built =~= chain_of(key, psegs, si, route));
        assert(built.children[0] == built2);
        assert(built.children.len() == 1);
        // the literal level matches its own segment and recurses
        assert(qsegs[si] == pseg);
        lemma_cpl_exact(qsegs[si], built2.key, pseg.len() as int);
        assert(common_prefix(qsegs[si], built2.key) == pseg.len());
        assert(!is_param_key(built2.key));
        assert(built2.key != seq!['*']);
        assert(si + 1 < qsegs.len());
        assert(value_mws(built2) + Seq::<u64>::empty() =~= Seq::<u64>::empty());
        assert(seek_from(built, qsegs[si], qsegs, si + 1, false, 0) == Some(
            SpecFound {
                routes: seq![route],
                params: Map::<Seq<char>, Seq<char>>::empty(),
                mws: Seq::<u64>::empty(),
            },
        ));
    }
}

/// A trailing wildcard catches every continuation: register a path whose
/// last segment is `*` behind a fresh literal first edge; then every path
/// that walks the literal prefix — with however many further segments —
/// resolves to the registered route, accumulating the root's middleware
/// and nothing else.
pub proof fn lemma_register_wildcard_then_search(
    head: SpecNode,
    path: Seq<char>,
    route: Route,
    qsegs: Seq<Seq<char>>,
)
    requires
        forall|j: int|
            0 <= j < head.children.len() ==> !is_param_key(#[trigger] head.children[j].key)
                && head.children[j].key.len() > 0 && common_prefix(
                split_segments(path)[0],
                head.children[j].key,
            ) == 0,
        split_segments(path).len() >= 2,
        !is_param_key(split_segments(path)[0]),
        split_segments(path)[split_segments(path).len() - 1] == seq!['*'],
        forall|i: int|
            0 <= i < split_segments(path).len() - 1 ==> !is_param_key(
                #[trigger] split_segments(path)[i],
            ) && !split_segments(path)[i].contains('*'),
        qsegs.len() >= split_segments(path).len(),
        forall|j: int|
            0 <= j < split_segments(path).len() - 1 ==> #[trigger] qsegs[j] == split_segments(
                path,
            )[j],
    ensures
        ({
            let (t2, ok) = spec_insert_route(head, path, route);
            &&& ok
            &&& search_model(t2, qsegs) == Some(
                SpecFound {
                    routes: seq![route],
                    params: Map::<Seq<char>, Seq<char>>::empty(),
                    mws: value_mws(head),
                },
            )
        }),
{
    let psegs = split_segments(path);
    let n = psegs.len() as int;
    lemma_split_from_nonempty(path, 0);
    assert(wild_ok(psegs)) by {
        assert forall|i: int|
            0 <= i < psegs.len() && #[trigger] psegs[i].contains('*') implies psegs[i] == seq![
            '*',
        ] && i == psegs.len() - 1 by {
            if i < n - 1 {
                assert(!psegs[i].contains('*'));
            } else {
                assert(psegs[i] == seq!['*']);
            }
        }
    }
    assert(psegs[0].len() > 0 && !psegs[0].contains('*'));
    if psegs[0] == seq!['*'] {
        assert(psegs[0].contains('*')) by {
            assert(psegs[0][0] == '*');
        }
    }
    lemma_wild_chain_round(psegs[0], psegs, qsegs, 1, route);
    lemma_action_fresh(head.children, psegs[0], 0);
    let fresh = SpecNode { key: psegs[0], value: None, children: Seq::empty() };
    let (built, ok) = continue_model(fresh, psegs, 1, SpecOp::AddRoute(route));
    let t2 = SpecNode {
        key: head.key,
        value: head.value,
        children: head.children.insert(0, built),
    };
    assert(spec_insert_route(head, path, route) == (t2, ok));
    assert(t2.children[0] == built);
    assert(qsegs[0] == psegs[0]);
    lemma_cpl_exact(qsegs[0], built.key, psegs[0].len() as int);
    assert(common_prefix(qsegs[0], built.key) == psegs[0].len());
    assert(!is_param_key(built.key));
    assert(built.key != seq!['*']);
    assert(1 < qsegs.len());
    assert(value_mws(built) + Seq::<u64>::empty() =~= Seq::<u64>::empty());
    assert(seek_from(t2, qsegs[0], qsegs, 1, false, 0) == Some(
        SpecFound {
            routes: seq![route],
            params: Map::<Seq<char>, Seq<char>>::empty(),
            mws: Seq::<u64>::empty(),
        },
    ));
    assert(value_mws(t2) + Seq::<u64>::empty() =~= value_mws(t2));
    assert(value_mws(t2) == value_mws(head));
}

} // verus!
