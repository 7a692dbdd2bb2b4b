use vstd::prelude::*;
use vstd::set_lib::lemma_int_range;
use vstd::set_lib::lemma_len_subset;
use vstd::set_lib::set_int_range;

use crate::model::dfs_list;
use crate::model::dfs_node;
use crate::model::export_pairs;
use crate::model::has_idx;
use crate::model::installed_name;
use crate::model::key_seq;
use crate::model::lemma_name_index_unique;
use crate::model::lemma_row_src_at;
use crate::model::map_of_pairs;
use crate::model::map_row;
use crate::model::name_index;
use crate::model::names_of;
use crate::model::represents;
use crate::model::resolve_row;
use crate::model::row_src;
use crate::model::traversal_names;
use crate::model::DfsResult;
use crate::model::GraphModel;
use crate::model::TravelMode;

verus! {

/// What every completed walk satisfies: it emits only valid item indices
/// that are neither installed, nor already backtraced, nor on the current
/// recursion path; it emits each at most once; and the items backtraced
/// afterwards are exactly those backtraced before together with the
/// emitted ones.
pub proof fn lemma_dfs_node_props(m: GraphModel, i: int, p: Set<int>, b: Set<int>, mode: TravelMode)
    requires
        m.wf(),
        0 <= i < m.n(),
        p.finite(),
        p.subset_of(set_int_range(0, m.n())),
    ensures
        dfs_node(m, i, p, b, mode) is Done ==> ({
            let r = dfs_node(m, i, p, b, mode);
            &&& forall|x: int| #[trigger]
                r->Done_order.contains(x) ==> 0 <= x < m.n() && !m.is_installed(x) && !b.contains(
                    x,
                ) && !p.contains(x)
            &&& forall|x: int| #[trigger]
                r->Done_done.contains(x) <==> b.contains(x) || r->Done_order.contains(x)
            &&& r->Done_order.no_duplicates()
        }),
    decreases m.n() - p.len(), 0int,
{
    if b.contains(i) || m.is_installed(i) {
    } else if p.contains(i) {
    } else {
        lemma_int_range(0, m.n());
        assert(p.insert(i).subset_of(set_int_range(0, m.n())));
        lemma_len_subset(p.insert(i), set_int_range(0, m.n()));
        lemma_dfs_list_props(m, m.row(i), 0, p.insert(i), b, mode);
        let sub = dfs_list(m, m.row(i), 0, p.insert(i), b, mode);
        if sub is Done {
            let o = sub->Done_order;
            let r = dfs_node(m, i, p, b, mode);
            let ro = r->Done_order;
            assert(!o.contains(i));
            match mode {
                TravelMode::Pre => {
                    assert(ro == seq![i] + o);
                    assert(ro[0] == i);
                    assert forall|x: int| #[trigger] ro.contains(x) implies 0 <= x < m.n()
                        && !m.is_installed(x) && !b.contains(x) && !p.contains(x) by {
                        let t = choose|t: int| 0 <= t < ro.len() && ro[t] == x;
                        if t > 0 {
                            assert(o[t - 1] == x);
                            assert(o.contains(x));
                        }
                    }
                    assert forall|x: int| o.contains(x) implies ro.contains(x) by {
                        let t = choose|t: int| 0 <= t < o.len() && o[t] == x;
                        assert(ro[t + 1] == x);
                    }
                    assert(ro.no_duplicates()) by {
                        assert forall|u: int, v: int|
                            0 <= u < v < ro.len() implies ro[u] != ro[v] by {
                            if u == 0 {
                                assert(ro[v] == o[v - 1]);
                                assert(o.contains(o[v - 1]));
                            } else {
                                assert(ro[u] == o[u - 1]);
                                assert(ro[v] == o[v - 1]);
                            }
                        }
                    }
                },
                TravelMode::Post => {
                    assert(ro == o.push(i));
                    assert(ro[ro.len() - 1] == i);
                    assert forall|x: int| #[trigger] ro.contains(x) implies 0 <= x < m.n()
                        && !m.is_installed(x) && !b.contains(x) && !p.contains(x) by {
                        let t = choose|t: int| 0 <= t < ro.len() && ro[t] == x;
                        if t < ro.len() - 1 {
                            assert(o[t] == x);
                            assert(o.contains(x));
                        }
                    }
                    assert forall|x: int| o.contains(x) implies ro.contains(x) by {
                        let t = choose|t: int| 0 <= t < o.len() && o[t] == x;
                        assert(ro[t] == x);
                    }
                    assert(ro.no_duplicates()) by {
                        assert forall|u: int, v: int|
                            0 <= u < v < ro.len() implies ro[u] != ro[v] by {
                            if v == ro.len() - 1 {
                                assert(ro[u] == o[u]);
                                assert(o.contains(o[u]));
                            } else {
                                assert(ro[u] == o[u]);
                                assert(ro[v] == o[v]);
                            }
                        }
                    }
                },
            }
            assert forall|x: int| #[trigger]
                r->Done_done.contains(x) <==> b.contains(x) || ro.contains(x) by {
                assert(r->Done_done == sub->Done_done.insert(i));
                if x == i {
                    assert(ro.contains(i)) by {
                        match mode {
                            TravelMode::Pre => {
                                assert(ro[0] == i);
                            },
                            TravelMode::Post => {
                                assert(ro[ro.len() - 1] == i);
                            },
                        }
                    }
                }
            }
        }
    }
}

/// The walk over `l[k..]` satisfies the same properties, threaded through
/// the successive backtraced sets.
pub proof fn lemma_dfs_list_props(
    m: GraphModel,
    l: Seq<int>,
    k: int,
    p: Set<int>,
    b: Set<int>,
    mode: TravelMode,
)
    requires
        m.wf(),
        0 <= k,
        p.finite(),
        p.subset_of(set_int_range(0, m.n())),
        forall|t: int| 0 <= t < l.len() ==> 0 <= #[trigger] l[t] < m.n(),
    ensures
        dfs_list(m, l, k, p, b, mode) is Done ==> ({
            let r = dfs_list(m, l, k, p, b, mode);
            &&& forall|x: int| #[trigger]
                r->Done_order.contains(x) ==> 0 <= x < m.n() && !m.is_installed(x) && !b.contains(
                    x,
                ) && !p.contains(x)
            &&& forall|x: int| #[trigger]
                r->Done_done.contains(x) <==> b.contains(x) || r->Done_order.contains(x)
            &&& r->Done_order.no_duplicates()
        }),
    decreases m.n() - p.len(), l.len() - k + 1,
{
    if k >= l.len() {
    } else {
        lemma_dfs_node_props(m, l[k], p, b, mode);
        let sub = dfs_node(m, l[k], p, b, mode);
        if sub is Done {
            let b2 = sub->Done_done;
            let o1 = sub->Done_order;
            lemma_dfs_list_props(m, l, k + 1, p, b2, mode);
            let rest = dfs_list(m, l, k + 1, p, b2, mode);
            if rest is Done {
                let o2 = rest->Done_order;
                let r = dfs_list(m, l, k, p, b, mode);
                let ro = r->Done_order;
                assert(ro == o1 + o2);
                assert forall|x: int| #[trigger] ro.contains(x) implies 0 <= x < m.n()
                    && !m.is_installed(x) && !b.contains(x) && !p.contains(x) by {
                    let t = choose|t: int| 0 <= t < ro.len() && ro[t] == x;
                    if t < o1.len() {
                        assert(o1[t] == x);
                        assert(o1.contains(x));
                    } else {
                        assert(o2[t - o1.len()] == x);
                        assert(o2.contains(x));
                        assert(!b2.contains(x));
                    }
                }
                assert forall|x: int| o1.contains(x) || o2.contains(x) implies ro.contains(x) by {
                    if o1.contains(x) {
                        let t = choose|t: int| 0 <= t < o1.len() && o1[t] == x;
                        assert(ro[t] == x);
                    } else {
                        let t = choose|t: int| 0 <= t < o2.len() && o2[t] == x;
                        assert(ro[o1.len() + t] == x);
                    }
                }
                assert forall|x: int| #[trigger]
                    r->Done_done.contains(x) <==> b.contains(x) || ro.contains(x) by {
                    if r->Done_done.contains(x) {
                        assert(b2.contains(x) || o2.contains(x));
                    }
                    if ro.contains(x) {
                        let t = choose|t: int| 0 <= t < ro.len() && ro[t] == x;
                        if t < o1.len() {
                            assert(o1[t] == x);
                            assert(o1.contains(x));
                        } else {
                            assert(o2[t - o1.len()] == x);
                            assert(o2.contains(x));
                        }
                    }
                }
                assert(ro.no_duplicates()) by {
                    assert forall|u: int, v: int| 0 <= u < v < ro.len() implies ro[u] != ro[v] by {
                        if v < o1.len() {
                            assert(ro[u] == o1[u] && ro[v] == o1[v]);
                        } else if u >= o1.len() {
                            assert(ro[u] == o2[u - o1.len()] && ro[v] == o2[v - o1.len()]);
                        } else {
                            assert(ro[u] == o1[u] && ro[v] == o2[v - o1.len()]);
                            assert(o1.contains(o1[u]));
                            assert(o2.contains(o2[v - o1.len()]));
                            assert(b2.contains(o1[u]));
                            assert(!b2.contains(o2[v - o1.len()]));
                        }
                    }
                }
            }
        }
    }
}

/// A dependency path that a traversal may walk: consecutive items joined by
/// dependency edges, none of them recorded as installed.
pub open spec fn is_path(m: GraphModel, path: Seq<int>) -> bool {
    &&& path.len() >= 1
    &&& forall|t: int|
        0 <= t < path.len() ==> 0 <= #[trigger] path[t] < m.n() && !m.is_installed(path[t])
    &&& forall|t: int| 0 <= t < path.len() - 1 ==> m.row(path[t]).contains(#[trigger] path[t + 1])
}

/// Whether item `x` can be reached from item `i` along dependency edges
/// without meeting an installed item — `i` and `x` included.
pub open spec fn reachable(m: GraphModel, i: int, x: int) -> bool {
    exists|path: Seq<int>| #[trigger] is_path(m, path) && path[0] == i && path.last() == x
}

/// A set of items closed under non-installed dependencies: nothing escapes
/// it along an edge except into an installed item.
pub open spec fn closed_under_deps(m: GraphModel, s: Set<int>) -> bool {
    forall|v: int, w: int|
        #![trigger s.contains(v), m.row(v).contains(w)]
        s.contains(v) && 0 <= v < m.n() && m.row(v).contains(w) && !m.is_installed(w)
            ==> s.contains(w)
}

/// A completed walk leaves a backtraced set closed under non-installed
/// dependencies: every dependency of a finished item was either finished
/// itself or skipped as installed.
pub proof fn lemma_dfs_node_closed(m: GraphModel, i: int, p: Set<int>, b: Set<int>, mode: TravelMode)
    requires
        m.wf(),
        0 <= i < m.n(),
        p.finite(),
        p.subset_of(set_int_range(0, m.n())),
        closed_under_deps(m, b),
    ensures
        dfs_node(m, i, p, b, mode) is Done ==> ({
            let r = dfs_node(m, i, p, b, mode);
            &&& closed_under_deps(m, r->Done_done)
            &&& b.subset_of(r->Done_done)
            &&& !m.is_installed(i) ==> r->Done_done.contains(i)
        }),
    decreases m.n() - p.len(), 0int,
{
    if b.contains(i) || m.is_installed(i) {
    } else if p.contains(i) {
    } else {
        lemma_int_range(0, m.n());
        assert(p.insert(i).subset_of(set_int_range(0, m.n())));
        lemma_len_subset(p.insert(i), set_int_range(0, m.n()));
        let l = m.row(i);
        lemma_dfs_list_closed(m, l, 0, p.insert(i), b, mode);
        let sub = dfs_list(m, l, 0, p.insert(i), b, mode);
        if sub is Done {
            let d2 = sub->Done_done;
            let r = dfs_node(m, i, p, b, mode);
            assert(r->Done_done == d2.insert(i));
            assert forall|v: int, w: int|
                #![trigger r->Done_done.contains(v), m.row(v).contains(w)]
                r->Done_done.contains(v) && 0 <= v < m.n() && m.row(v).contains(w)
                    && !m.is_installed(w) implies r->Done_done.contains(w) by {
                if v == i && !d2.contains(v) {
                    let t = choose|t: int| 0 <= t < l.len() && l[t] == w;
                    assert(m.is_installed(l[t]) || d2.contains(l[t]));
                } else {
                    assert(d2.contains(v));
                    assert(d2.contains(w));
                }
            }
        }
    }
}

/// The list walk preserves closure, only grows the backtraced set, and
/// accounts for every listed dependency: each ends up backtraced or was
/// installed.
pub proof fn lemma_dfs_list_closed(
    m: GraphModel,
    l: Seq<int>,
    k: int,
    p: Set<int>,
    b: Set<int>,
    mode: TravelMode,
)
    requires
        m.wf(),
        0 <= k,
        p.finite(),
        p.subset_of(set_int_range(0, m.n())),
        forall|t: int| 0 <= t < l.len() ==> 0 <= #[trigger] l[t] < m.n(),
        closed_under_deps(m, b),
    ensures
        dfs_list(m, l, k, p, b, mode) is Done ==> ({
            let r = dfs_list(m, l, k, p, b, mode);
            &&& closed_under_deps(m, r->Done_done)
            &&& b.subset_of(r->Done_done)
            &&& forall|t: int|
                k <= t < l.len() ==> m.is_installed(#[trigger] l[t]) || r->Done_done.contains(
                    l[t],
                )
        }),
    decreases m.n() - p.len(), l.len() - k + 1,
{
    if k >= l.len() {
    } else {
        lemma_dfs_node_closed(m, l[k], p, b, mode);
        lemma_dfs_node_props(m, l[k], p, b, mode);
        let sub = dfs_node(m, l[k], p, b, mode);
        if sub is Done {
            let b2 = sub->Done_done;
            lemma_dfs_list_closed(m, l, k + 1, p, b2, mode);
            lemma_dfs_list_props(m, l, k + 1, p, b2, mode);
            let rest = dfs_list(m, l, k + 1, p, b2, mode);
            if rest is Done {
                let b3 = rest->Done_done;
                assert(m.is_installed(l[k]) || b2.contains(l[k])) by {
                    if !m.is_installed(l[k]) && !b.contains(l[k]) && !p.contains(l[k]) {
                        assert(b2 == dfs_list(
                            m,
                            m.row(l[k]),
                            0,
                            p.insert(l[k]),
                            b,
                            mode,
                        )->Done_done.insert(l[k]));
                    }
                }
                assert forall|t: int| k <= t < l.len() implies m.is_installed(#[trigger] l[t])
                    || b3.contains(l[t]) by {
                    if t == k && !m.is_installed(l[k]) {
                        assert(b2.contains(l[k]));
                        assert(b3.contains(l[k]));
                    }
                }
            }
        }
    }
}

/// Every item a completed walk emits is reachable from the walk's start
/// along a dependency path free of installed items.
pub proof fn lemma_dfs_node_sound(m: GraphModel, i: int, p: Set<int>, b: Set<int>, mode: TravelMode)
    requires
        m.wf(),
        0 <= i < m.n(),
        p.finite(),
        p.subset_of(set_int_range(0, m.n())),
    ensures
        dfs_node(m, i, p, b, mode) is Done ==> ({
            let r = dfs_node(m, i, p, b, mode);
            forall|x: int| #[trigger] r->Done_order.contains(x) ==> reachable(m, i, x)
        }),
    decreases m.n() - p.len(), 0int,
{
    if b.contains(i) || m.is_installed(i) {
    } else if p.contains(i) {
    } else {
        lemma_int_range(0, m.n());
        assert(p.insert(i).subset_of(set_int_range(0, m.n())));
        lemma_len_subset(p.insert(i), set_int_range(0, m.n()));
        let l = m.row(i);
        lemma_dfs_list_sound(m, l, 0, p.insert(i), b, mode);
        let sub = dfs_list(m, l, 0, p.insert(i), b, mode);
        if sub is Done {
            let o = sub->Done_order;
            let r = dfs_node(m, i, p, b, mode);
            let ro = r->Done_order;
            assert forall|x: int| #[trigger] ro.contains(x) implies reachable(m, i, x) by {
                let t0 = choose|t0: int| 0 <= t0 < ro.len() && ro[t0] == x;
                let emitted_here = (match mode {
                    TravelMode::Pre => t0 == 0,
                    TravelMode::Post => t0 == ro.len() - 1,
                });
                if emitted_here {
                    assert(x == i);
                    let path = seq![i];
                    assert(is_path(m, path)) by {
                        assert(path[0] == i);
                    }
                    assert(path[0] == i && path.last() == i);
                } else {
                    assert(o.contains(x)) by {
                        match mode {
                            TravelMode::Pre => {
                                assert(ro[t0] == o[t0 - 1]);
                            },
                            TravelMode::Post => {
                                assert(ro[t0] == o[t0]);
                            },
                        }
                    }
                    let t = choose|t: int| 0 <= t < l.len() && reachable(m, l[t], x);
                    let q = choose|q: Seq<int>|
                        #[trigger] is_path(m, q) && q[0] == l[t] && q.last() == x;
                    let path = seq![i] + q;
                    assert(is_path(m, path)) by {
                        assert forall|u: int| 0 <= u < path.len() implies 0 <= #[trigger] path[u]
                            < m.n() && !m.is_installed(path[u]) by {
                            if u > 0 {
                                assert(path[u] == q[u - 1]);
                            } else {
                                assert(path[u] == i);
                            }
                        }
                        assert forall|u: int| 0 <= u < path.len() - 1 implies m.row(
                            path[u],
                        ).contains(#[trigger] path[u + 1]) by {
                            if u == 0 {
                                assert(path[1] == q[0]);
                                assert(q[0] == l[t]);
                                assert(l[t] == m.row(i)[t]);
                                assert(m.row(i).contains(l[t]));
                            } else {
                                assert(path[u] == q[u - 1]);
                                assert(m.row(q[u - 1]).contains(q[u - 1 + 1]));
                                assert(path[u + 1] == q[u]);
                            }
                        }
                    }
                    assert(path[0] == i);
                    assert(path.last() == q.last());
                }
            }
        }
    }
}

/// Every item the list walk emits is reachable from one of the listed
/// dependencies still to be walked.
pub proof fn lemma_dfs_list_sound(
    m: GraphModel,
    l: Seq<int>,
    k: int,
    p: Set<int>,
    b: Set<int>,
    mode: TravelMode,
)
    requires
        m.wf(),
        0 <= k,
        p.finite(),
        p.subset_of(set_int_range(0, m.n())),
        forall|t: int| 0 <= t < l.len() ==> 0 <= #[trigger] l[t] < m.n(),
    ensures
        dfs_list(m, l, k, p, b, mode) is Done ==> ({
            let r = dfs_list(m, l, k, p, b, mode);
            forall|x: int| #[trigger]
                r->Done_order.contains(x) ==> exists|t: int|
                    k <= t < l.len() && reachable(m, #[trigger] l[t], x)
        }),
    decreases m.n() - p.len(), l.len() - k + 1,
{
    if k >= l.len() {
    } else {
        lemma_dfs_node_sound(m, l[k], p, b, mode);
        let sub = dfs_node(m, l[k], p, b, mode);
        if sub is Done {
            let b2 = sub->Done_done;
            let o1 = sub->Done_order;
            lemma_dfs_list_sound(m, l, k + 1, p, b2, mode);
            let rest = dfs_list(m, l, k + 1, p, b2, mode);
            if rest is Done {
                let o2 = rest->Done_order;
                let r = dfs_list(m, l, k, p, b, mode);
                let ro = r->Done_order;
                assert(ro == o1 + o2);
                assert forall|x: int| #[trigger] ro.contains(x) implies exists|t: int|
                    k <= t < l.len() && reachable(m, #[trigger] l[t], x) by {
                    let t0 = choose|t0: int| 0 <= t0 < ro.len() && ro[t0] == x;
                    if t0 < o1.len() {
                        assert(o1[t0] == x);
                        assert(o1.contains(x));
                        assert(k <= k < l.len() && reachable(m, l[k], x));
                    } else {
                        assert(o2[t0 - o1.len()] == x);
                        assert(o2.contains(x));
                        let t = choose|t: int| k + 1 <= t < l.len() && reachable(m, l[t], x);
                        assert(k <= t < l.len() && reachable(m, l[t], x));
                    }
                }
            }
        }
    }
}

/// A closed backtraced set swallows whole paths: once a path's first item
/// is in it, so is its last.
pub proof fn lemma_path_stays_in_closed(m: GraphModel, done: Set<int>, path: Seq<int>)
    requires
        m.wf(),
        closed_under_deps(m, done),
        is_path(m, path),
        done.contains(path[0]),
    ensures
        done.contains(path.last()),
    decreases path.len(),
{
    if path.len() > 1 {
        let prefix = path.drop_last();
        assert(is_path(m, prefix)) by {
            assert forall|t: int| 0 <= t < prefix.len() - 1 implies m.row(prefix[t]).contains(
                #[trigger] prefix[t + 1],
            ) by {
                assert(prefix[t] == path[t]);
                assert(prefix[t + 1] == path[t + 1]);
                assert(m.row(path[t]).contains(path[t + 1]));
            }
        }
        lemma_path_stays_in_closed(m, done, prefix);
        let v = path[path.len() - 2];
        let w = path[path.len() - 1];
        assert(prefix.last() == v);
        assert(m.row(v).contains(w)) by {
            assert(m.row(path[path.len() - 2]).contains(path[path.len() - 2 + 1]));
        }
        assert(done.contains(w));
    }
}

/// The full account of one completed traversal: it emits exactly the items
/// reachable from the root along dependency paths free of installed items.
/// In particular, after an item is marked installed, nothing reachable only
/// through it is walked again, while items required by another
/// not-yet-installed path still are.
pub proof fn lemma_traversal_reaches_exactly(m: GraphModel, root: Seq<char>)
    requires
        m.wf(),
        m.has_name(root),
        traversal_names(m, root) is Some,
    ensures
        ({
            let i = m.index_of(root);
            let out = traversal_names(m, root).unwrap();
            forall|nm: Seq<char>| #[trigger]
                out.contains(nm) <==> exists|x: int|
                    0 <= x < m.n() && m.names[x] == nm && #[trigger] reachable(m, i, x)
        }),
{
    let i = m.index_of(root);
    assert(0 <= i < m.n() && m.names[i] == root) by {
        let w = choose|w: int| 0 <= w < m.names.len() && m.names[w] == root;
        lemma_name_index_unique(m.names, root, w);
    }
    lemma_int_range(0, m.n());
    let r = dfs_node(m, i, Set::empty(), Set::empty(), TravelMode::Post);
    lemma_dfs_node_props(m, i, Set::empty(), Set::empty(), TravelMode::Post);
    lemma_dfs_node_sound(m, i, Set::empty(), Set::empty(), TravelMode::Post);
    assert(closed_under_deps(m, Set::<int>::empty()));
    lemma_dfs_node_closed(m, i, Set::empty(), Set::empty(), TravelMode::Post);
    let order = r->Done_order;
    let done = r->Done_done;
    let out = traversal_names(m, root).unwrap();
    assert(out == names_of(order, m.names));
    assert forall|nm: Seq<char>| #[trigger]
        out.contains(nm) <==> exists|x: int|
            0 <= x < m.n() && m.names[x] == nm && #[trigger] reachable(m, i, x) by {
        if out.contains(nm) {
            let t = choose|t: int| 0 <= t < out.len() && out[t] == nm;
            let x = order[t];
            assert(order.contains(x));
            assert(m.names[x] == nm);
            assert(reachable(m, i, x));
            assert(0 <= x < m.n() && m.names[x] == nm && reachable(m, i, x));
        }
        if exists|x: int| 0 <= x < m.n() && m.names[x] == nm && #[trigger] reachable(m, i, x) {
            let x = choose|x: int|
                0 <= x < m.n() && m.names[x] == nm && #[trigger] reachable(m, i, x);
            let path = choose|path: Seq<int>|
                #[trigger] is_path(m, path) && path[0] == i && path.last() == x;
            assert(!m.is_installed(i)) by {
                assert(path[0] == i);
            }
            assert(done.contains(i));
            lemma_path_stays_in_closed(m, done, path);
            assert(done.contains(x));
            assert(order.contains(x));
            let t = choose|t: int| 0 <= t < order.len() && order[t] == x;
            assert(out[t] == nm);
            assert(out.contains(nm));
        }
    }
}

/// Installed items are skipped: a traversal that completes never emits an
/// item recorded as installed, nor, since only emitted items are walked
/// into, anything reachable solely through it.
pub proof fn lemma_installed_not_emitted(m: GraphModel, root: Seq<char>, nm: Seq<char>)
    requires
        m.wf(),
        m.has_name(nm),
        m.is_installed(m.index_of(nm)),
        traversal_names(m, root) is Some,
    ensures
        !traversal_names(m, root).unwrap().contains(nm),
{
    if m.has_name(root) {
        let i = m.index_of(root);
        assert(0 <= i < m.n() && m.names[i] == root) by {
            let w = choose|w: int| 0 <= w < m.names.len() && m.names[w] == root;
            lemma_name_index_unique(m.names, root, w);
        }
        lemma_int_range(0, m.n());
        lemma_dfs_node_props(m, i, Set::empty(), Set::empty(), TravelMode::Post);
        let r = dfs_node(m, i, Set::empty(), Set::empty(), TravelMode::Post);
        let order = r->Done_order;
        let out = traversal_names(m, root).unwrap();
        assert(out == names_of(order, m.names));
        if out.contains(nm) {
            let t = choose|t: int| 0 <= t < out.len() && out[t] == nm;
            let x = order[t];
            assert(order.contains(x));
            assert(m.names[x] == nm);
            lemma_name_index_unique(m.names, nm, x);
            assert(m.is_installed(x));
            assert(false);
        }
    } else {
        let w = choose|w: int| 0 <= w < m.names.len() && m.names[w] == nm;
    }
}

/// Traversal is idempotent: it reads the names, the rows and the installed
/// row and mutates only the transient markers, which are reset up front, so
/// two graphs with the same model — as a completed traversal leaves behind
/// — walk identically from any root.
pub proof fn lemma_traverse_idempotent(before: GraphModel, after: GraphModel, root: Seq<char>)
    requires
        before == after,
    ensures
        traversal_names(before, root) == traversal_names(after, root),
{
}

/// The names a resolved row points at are exactly the dependency names it
/// was resolved from, as sets, provided every dependency resolves.
pub proof fn lemma_resolve_names_set(deps: Seq<Seq<char>>, names: Seq<Seq<char>>)
    requires
        forall|u: int, v: int| 0 <= u < v < names.len() ==> names[u] != names[v],
        forall|d: Seq<char>| #[trigger] deps.contains(d) ==> has_idx(names, d),
    ensures
        names_of(resolve_row(deps, names), names).to_set() == deps.to_set(),
    decreases deps.len(),
{
    let row = resolve_row(deps, names);
    let lhs = names_of(row, names).to_set();
    if deps.len() == 0 {
        assert(lhs =~= deps.to_set());
    } else {
        let head = deps.drop_last();
        let d = deps.last();
        assert forall|d2: Seq<char>| #[trigger] head.contains(d2) implies has_idx(names, d2) by {
            let t = choose|t: int| 0 <= t < head.len() && head[t] == d2;
            assert(deps[t] == d2);
            assert(deps.contains(d2));
        }
        lemma_resolve_names_set(head, names);
        let rest = resolve_row(head, names);
        assert(deps.contains(d)) by {
            assert(deps[deps.len() - 1] == d);
        }
        let j = name_index(names, d);
        assert(0 <= j < names.len() && names[j] == d) by {
            let w = choose|w: int| 0 <= w < names.len() && names[w] == d;
            lemma_name_index_unique(names, d, w);
        }
        assert(deps.to_set() =~= head.to_set().insert(d)) by {
            assert forall|x: Seq<char>| #[trigger] deps.contains(x) implies head.contains(x) || x
                == d by {
                let t = choose|t: int| 0 <= t < deps.len() && deps[t] == x;
                if t < deps.len() - 1 {
                    assert(head[t] == x);
                }
            }
            assert forall|x: Seq<char>| #[trigger] head.contains(x) implies deps.contains(x) by {
                let t = choose|t: int| 0 <= t < head.len() && head[t] == x;
                assert(deps[t] == x);
            }
        }
        if rest.contains(j) {
            assert(row == rest);
            assert(names_of(rest, names).to_set().contains(d)) by {
                let t = choose|t: int| 0 <= t < rest.len() && rest[t] == j;
                assert(names_of(rest, names)[t] == d);
                assert(names_of(rest, names).contains(d));
            }
            assert(lhs =~= head.to_set().insert(d));
        } else {
            assert(row == rest.push(j));
            assert(names_of(row, names) =~= names_of(rest, names).push(d));
            assert(lhs =~= names_of(rest, names).to_set().insert(d)) by {
                assert(row[rest.len() as int] == j);
                assert(names_of(row, names)[rest.len() as int] == d);
                assert(names_of(row, names).contains(d));
                assert forall|x: Seq<char>| #[trigger]
                    names_of(row, names).contains(x) implies names_of(rest, names).contains(x) || x
                    == d by {
                    let t = choose|t: int|
                        0 <= t < names_of(row, names).len() && names_of(row, names)[t] == x;
                    if t < rest.len() {
                        assert(names_of(rest, names)[t] == x);
                    }
                }
                assert forall|x: Seq<char>| #[trigger]
                    names_of(rest, names).contains(x) implies names_of(row, names).contains(x) by {
                    let t = choose|t: int|
                        0 <= t < names_of(rest, names).len() && names_of(rest, names)[t] == x;
                    assert(names_of(row, names)[t] == x);
                }
            }
            assert(lhs =~= head.to_set().insert(d));
        }
    }
}

/// Round-trip: exporting a graph that represents a mapping with no dangling
/// dependency names gives that mapping back, key for key, each dependency
/// list equal as a set — the synthetic installed key coming along, empty
/// when the mapping had none.
pub proof fn lemma_round_trip(g: GraphModel, m: Map<Seq<char>, Seq<Seq<char>>>)
    requires
        represents(g, m),
        forall|k: Seq<char>, d: Seq<char>|
            m.contains_key(k) && #[trigger] m[k].contains(d) ==> m.dom().insert(
                installed_name(),
            ).contains(d),
    ensures
        ({
            let e = map_of_pairs(export_pairs(g));
            &&& e.dom() == m.dom().insert(installed_name())
            &&& forall|k: Seq<char>| #[trigger]
                m.contains_key(k) ==> e.contains_key(k) && e[k].to_set() == m[k].to_set()
            &&& !m.contains_key(installed_name()) ==> e.contains_key(installed_name())
                && e[installed_name()].to_set() == Set::<Seq<char>>::empty()
        }),
{
    let ps = export_pairs(g);
    let e = map_of_pairs(ps);
    assert(ps.len() == g.names.len());
    assert forall|t: int| 0 <= t < ps.len() implies ps[t].0 == g.names[t] by {}
    assert forall|t: int| 0 <= t < key_seq(ps).len() implies key_seq(ps)[t] == g.names[t] by {}

    assert(e.dom() =~= m.dom().insert(installed_name())) by {
        assert forall|k: Seq<char>| #[trigger] e.dom().contains(k) implies m.dom().insert(
            installed_name(),
        ).contains(k) by {
            let t = choose|t: int| 0 <= t < key_seq(ps).len() && key_seq(ps)[t] == k;
            assert(g.names[t] == k);
            assert(g.names.to_set().contains(k)) by {
                assert(g.names.contains(k));
            }
        }
        assert forall|k: Seq<char>|
            m.dom().insert(installed_name()).contains(k) implies #[trigger] e.dom().contains(
            k,
        ) by {
            assert(g.names.to_set().contains(k));
            assert(g.names.contains(k));
            let t = choose|t: int| 0 <= t < g.names.len() && g.names[t] == k;
            assert(key_seq(ps)[t] == k);
            assert(has_idx(key_seq(ps), k));
        }
    }

    assert forall|k: Seq<char>| g.names.contains(k) implies #[trigger] e.contains_key(k)
        && e[k].to_set() == map_row(m, k).to_set() by {
        let t = choose|t: int| 0 <= t < g.names.len() && g.names[t] == k;
        lemma_name_index_unique(g.names, k, t);
        assert(key_seq(ps)[t] == k);
        assert(has_idx(key_seq(ps), k));
        assert forall|v: int| 0 <= v < t implies ps[v].0 != k by {
            assert(g.names[v] != g.names[t]);
        }
        lemma_row_src_at(ps, k, t);
        assert(row_src(ps, k) == names_of(g.rows[t], g.names));
        assert(e[k] == names_of(g.rows[t], g.names));
        assert(g.rows[t] == resolve_row(map_row(m, k), g.names));
        assert forall|d: Seq<char>| #[trigger] map_row(m, k).contains(d) implies has_idx(
            g.names,
            d,
        ) by {
            if m.contains_key(k) {
                assert(m[k].contains(d));
                assert(m.dom().insert(installed_name()).contains(d));
                assert(g.names.to_set().contains(d));
                assert(g.names.contains(d));
                let w = choose|w: int| 0 <= w < g.names.len() && g.names[w] == d;
            }
        }
        lemma_resolve_names_set(map_row(m, k), g.names);
    }

    assert forall|k: Seq<char>| #[trigger] m.contains_key(k) implies e.contains_key(k)
        && e[k].to_set() == m[k].to_set() by {
        assert(g.names.to_set().contains(k));
        assert(g.names.contains(k));
        assert(map_row(m, k) == m[k]);
    }
    if !m.contains_key(installed_name()) {
        assert(g.names.to_set().contains(installed_name()));
        assert(g.names.contains(installed_name()));
        assert(map_row(m, installed_name()) == Seq::<Seq<char>>::empty());
        assert(map_row(m, installed_name()).to_set() =~= Set::<Seq<char>>::empty());
    }
}

} // verus!
