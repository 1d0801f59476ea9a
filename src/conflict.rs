//! Checking a batch of renames for conflicts before anything is touched, and
//! turning it into a graph whose nodes are the distinct paths.
use crate::error::Error;
use crate::path::{
    chars_of, is_ancestor, is_ancestor_of, lemma_ancestor_le, lemma_between_is_descendant,
    lemma_le_antisymmetric, lemma_le_total, lemma_le_transitive, lemma_prefix_le, path_le,
    sorts_before,
};
use vstd::prelude::*;

verus! {

/// The batch as text: the source and the destination of each pair.
pub open spec fn pairs_view(pairs: Seq<(String, String)>) -> Seq<(Seq<char>, Seq<char>)> {
    pairs.map_values(|pr: (String, String)| (pr.0@, pr.1@))
}

/// Whether `x` is the source or the destination of a pair of `p`.
pub open spec fn is_endpoint(p: Seq<(Seq<char>, Seq<char>)>, x: Seq<char>) -> bool {
    exists|i: int| 0 <= i < p.len() && (#[trigger] p[i].0 == x || p[i].1 == x)
}

/// Whether `p` asks to move `x` to `y`.
pub open spec fn maps(p: Seq<(Seq<char>, Seq<char>)>, x: Seq<char>, y: Seq<char>) -> bool {
    exists|i: int| 0 <= i < p.len() && #[trigger] p[i] == (x, y)
}

/// Whether a source of `p` is paired with two different destinations.
pub open spec fn has_one_to_many(p: Seq<(Seq<char>, Seq<char>)>) -> bool {
    exists|i: int, j: int|
        0 <= i < j < p.len() && #[trigger] p[i].0 == #[trigger] p[j].0 && p[i].1 != p[j].1
}

/// Whether two different sources of `p` are paired with one destination.
pub open spec fn has_many_to_one(p: Seq<(Seq<char>, Seq<char>)>) -> bool {
    exists|i: int, j: int|
        0 <= i < p.len() && 0 <= j < p.len() && #[trigger] p[i].1 == #[trigger] p[j].1 && p[i].0
            != p[j].0
}

/// Whether a path of `p` lies inside another path of `p`.
pub open spec fn has_nesting(p: Seq<(Seq<char>, Seq<char>)>) -> bool {
    exists|x: Seq<char>, y: Seq<char>|
        #[trigger] is_endpoint(p, x) && #[trigger] is_endpoint(p, y) && is_ancestor(x, y)
}

/// Whether the batch `p` passes every check.
pub open spec fn accepts(p: Seq<(Seq<char>, Seq<char>)>) -> bool {
    !has_one_to_many(p) && !has_many_to_one(p) && !has_nesting(p)
}

/// Whether `e` is an error that the checks report for the batch `p`. The
/// checks come in order: a source with two destinations (the first pair, in
/// the order of the batch, that gives a source a second destination), then
/// two sources with one destination, then a path inside another path.
pub open spec fn rejection(p: Seq<(Seq<char>, Seq<char>)>, e: Error) -> bool {
    match e {
        Error::OneToMany { src, dst } => {
            &&& has_one_to_many(p)
            &&& exists|i: int, j: int|
                0 <= i < j < p.len() && #[trigger] p[i].0 == src@ && #[trigger] p[j].0 == src@
                    && p[i].1 == dst.0@ && p[j].1 == dst.1@ && !has_one_to_many(p.take(j))
        },
        Error::ManyToOne { src, dst } => {
            &&& !has_one_to_many(p)
            &&& has_many_to_one(p)
            &&& src.0@ != src.1@
            &&& maps(p, src.0@, dst@)
            &&& maps(p, src.1@, dst@)
        },
        Error::NonLeafNode { node, descendant } => {
            &&& !has_one_to_many(p)
            &&& !has_many_to_one(p)
            &&& has_nesting(p)
            &&& is_endpoint(p, node@)
            &&& is_endpoint(p, descendant@)
            &&& is_ancestor(node@, descendant@)
        },
        _ => false,
    }
}

/// A batch as a graph. Each distinct path is a node, numbered in the order in
/// which it first appears; `out` holds the destination of each source and
/// `inn` the source of each destination.
pub struct Graph {
    pub paths: Vec<Vec<char>>,
    pub names: Vec<String>,
    pub out: Vec<Option<usize>>,
    pub inn: Vec<Option<usize>>,
    /// The source node and the destination node of each pair of the batch.
    pub pair_nodes: Ghost<Seq<(usize, usize)>>,
}

impl Graph {
    /// The nodes are distinct paths, each with its name.
    pub open spec fn nodes_wf(&self) -> bool {
        &&& self.names.len() == self.paths.len()
        &&& self.out.len() == self.paths.len()
        &&& forall|k: int| 0 <= k < self.paths.len() ==> #[trigger] self.names@[k]@ == self.paths@[k]@
        &&& forall|j: int, k: int|
            0 <= j < self.paths.len() && 0 <= k < self.paths.len() && j != k ==> #[trigger] self.paths@[j]@ != #[trigger] self.paths@[k]@
        &&& forall|s: int|
            0 <= s < self.paths.len() && #[trigger] self.out@[s] is Some ==> self.out@[s]->0
                < self.paths.len()
    }

    /// Each destination has at most one source, and `inn` is `out` reversed.
    pub open spec fn wf(&self) -> bool {
        &&& self.nodes_wf()
        &&& self.inn.len() == self.paths.len()
        &&& forall|s: int, d: int|
            0 <= s < self.paths.len() && 0 <= d < self.paths.len() ==> (#[trigger] self.out@[s]
                == Some(d as usize) <==> #[trigger] self.inn@[d] == Some(s as usize))
        &&& forall|d: int|
            0 <= d < self.paths.len() && #[trigger] self.inn@[d] is Some ==> self.inn@[d]->0
                < self.paths.len()
    }

    /// The graph is that of the batch `p`: its nodes are the paths of `p`, and
    /// its edges the pairs of `p`.
    pub open spec fn models(&self, p: Seq<(Seq<char>, Seq<char>)>) -> bool {
        &&& forall|k: int| 0 <= k < self.paths.len() ==> is_endpoint(p, #[trigger] self.paths@[k]@)
        &&& self.pair_nodes@.len() == p.len()
        &&& forall|i: int|
            #![trigger self.pair_nodes@[i]]
            0 <= i < p.len() ==> {
                let (s, d) = self.pair_nodes@[i];
                &&& s < self.paths.len()
                &&& d < self.paths.len()
                &&& self.paths@[s as int]@ == p[i].0
                &&& self.paths@[d as int]@ == p[i].1
                &&& self.out@[s as int] == Some(d)
            }
        &&& forall|s: int, d: int|
            0 <= s < self.paths.len() && 0 <= d < self.paths.len() && #[trigger] self.out@[s]
                == Some(d as usize) ==> maps(p, self.paths@[s]@, #[trigger] self.paths@[d]@)
    }
}

proof fn lemma_endpoint_extend(p: Seq<(Seq<char>, Seq<char>)>, j: int, x: Seq<char>)
    requires
        0 <= j < p.len(),
        is_endpoint(p.take(j), x),
    ensures
        is_endpoint(p.take(j + 1), x),
{
    let i = choose|i: int| 0 <= i < p.take(j).len() && (#[trigger] p.take(j)[i].0 == x || p.take(j)[i].1 == x);
    assert(p.take(j + 1)[i] == p[i]);
}

/// Whether `a` and `b` hold the same characters.
fn same_chars(a: &Vec<char>, b: &Vec<char>) -> (r: bool)
    ensures
        r == (a@ == b@),
{
    if a.len() != b.len() {
        return false;
    }
    let mut i: usize = 0;
    while i < a.len()
        invariant
            i <= a.len() == b.len(),
            forall|k: int| 0 <= k < i ==> a@[k] == b@[k],
        decreases a.len() - i,
    {
        if a[i] != b[i] {
            return false;
        }
        i += 1;
    }
    assert(a@ =~= b@);
    true
}

/// The index of `x` in `list`, if it is there.
pub fn position_of(list: &Vec<Vec<char>>, x: &Vec<char>) -> (r: Option<usize>)
    ensures
        r is Some ==> r->0 < list.len() && list@[r->0 as int]@ == x@,
        r is None ==> forall|k: int| 0 <= k < list.len() ==> #[trigger] list@[k]@ != x@,
{
    let mut k: usize = 0;
    while k < list.len()
        invariant
            k <= list.len(),
            forall|j: int| 0 <= j < k ==> #[trigger] list@[j]@ != x@,
        decreases list.len() - k,
    {
        if same_chars(&list[k], x) {
            return Some(k);
        }
        k += 1;
    }
    None
}

impl Graph {
    /// The node of the path `x`, added where it is new.
    fn intern(&mut self, x: &String) -> (k: usize)
        requires
            old(self).nodes_wf(),
        ensures
            final(self).nodes_wf(),
            k < final(self).paths.len(),
            final(self).paths@[k as int]@ == x@,
            final(self).paths.len() == old(self).paths.len() || (final(self).paths.len()
                == old(self).paths.len() + 1 && k == old(self).paths.len() && forall|j: int|
                0 <= j < old(self).paths.len() ==> #[trigger] old(self).paths@[j]@ != x@),
            forall|j: int|
                0 <= j < old(self).paths.len() ==> #[trigger] final(self).paths@[j]@ == old(
                    self,
                ).paths@[j]@,
            forall|j: int|
                0 <= j < old(self).paths.len() ==> #[trigger] final(self).out@[j] == old(
                    self,
                ).out@[j],
            k == old(self).paths.len() ==> final(self).out@[k as int] is None,
            final(self).inn == old(self).inn,
    {
        let chars = chars_of(x.as_str());
        match position_of(&self.paths, &chars) {
            Some(k) => k,
            None => {
                let k = self.paths.len();
                self.paths.push(chars);
                self.names.push(x.clone());
                self.out.push(None);
                assert(forall|j: int| 0 <= j < k ==> #[trigger] self.paths@[j]@ == old(self).paths@[j]@);
                k
            },
        }
    }
}

/// Builds the graph of a batch of pairs and checks it. The checks come in
/// order: a source with two destinations, then a destination with two
/// sources, then a path inside another path of the batch.
pub fn validate(pairs: &Vec<(String, String)>) -> (r: Result<Graph, Error>)
    ensures
        match r {
            Ok(g) => {
                &&& accepts(pairs_view(pairs@))
                &&& g.wf()
                &&& g.models(pairs_view(pairs@))
            },
            Err(e) => rejection(pairs_view(pairs@), e),
        },
{
    let ghost p = pairs_view(pairs@);
    let mut g = Graph {
        paths: Vec::new(),
        names: Vec::new(),
        out: Vec::new(),
        inn: Vec::new(),
        pair_nodes: Ghost(Seq::empty()),
    };
    let ghost mut ids: Seq<(usize, usize)> = Seq::empty();
    let mut j: usize = 0;
    while j < pairs.len()
        invariant
            p == pairs_view(pairs@),
            j <= pairs.len(),
            g.nodes_wf(),
            g.inn@.len() == 0,
            forall|k: int| 0 <= k < g.paths.len() ==> is_endpoint(p.take(j as int), #[trigger] g.paths@[k]@),
            ids.len() == j,
            forall|i: int|
                #![trigger ids[i]]
                0 <= i < j ==> {
                    let (s, d) = ids[i];
                    &&& s < g.paths.len()
                    &&& d < g.paths.len()
                    &&& g.paths@[s as int]@ == p[i].0
                    &&& g.paths@[d as int]@ == p[i].1
                    &&& g.out@[s as int] == Some(d)
                },
            forall|s: int, d: int|
                0 <= s < g.paths.len() && 0 <= d < g.paths.len() && #[trigger] g.out@[s] == Some(
                    d as usize,
                ) ==> maps(p.take(j as int), g.paths@[s]@, #[trigger] g.paths@[d]@),
            !has_one_to_many(p.take(j as int)),
        decreases pairs.len() - j,
    {
        let ghost pj = p.take(j as int);
        let ghost pj1 = p.take(j + 1);
        assert(p.len() == pairs.len());
        assert(pj.len() == j && pj1.len() == j + 1);
        assert(p[j as int] == (pairs@[j as int].0@, pairs@[j as int].1@));
        let ghost g0 = g;
        let s = g.intern(&pairs[j].0);
        let ghost g1 = g;
        let d = g.intern(&pairs[j].1);
        assert(g.paths@[s as int]@ == p[j as int].0);
        assert(forall|i: int| 0 <= i < j ==> #[trigger] pj1[i] == pj[i]);
        assert(pj1[j as int] == p[j as int]);
        match g.out[s] {
            Some(d0) => {
                assert(maps(pj, g.paths@[s as int]@, g.paths@[d0 as int]@));
                let ghost i0 = choose|i: int| 0 <= i < pj.len() && #[trigger] pj[i] == (g.paths@[s as int]@, g.paths@[d0 as int]@);
                if d0 != d {
                    assert(g.paths@[d0 as int]@ != g.paths@[d as int]@);
                    assert(p.take(j as int) == pj);
                    assert(p[i0].0 == p[j as int].0);
                    let e = Error::OneToMany {
                        src: g.names[s].clone(),
                        dst: (g.names[d0].clone(), g.names[d].clone()),
                    };
                    return Err(e);
                }
                assert(!has_one_to_many(pj1)) by {
                    if has_one_to_many(pj1) {
                        let (a, b) = choose|a: int, b: int|
                            0 <= a < b < pj1.len() && #[trigger] pj1[a].0 == #[trigger] pj1[b].0
                                && pj1[a].1 != pj1[b].1;
                        if b < j {
                            assert(pj[a].0 == pj[b].0 && pj[a].1 != pj[b].1);
                        } else {
                            assert(pj[a].0 == pj[i0].0);
                            if a < i0 {
                                assert(pj[a].1 == pj[i0].1);
                            } else if i0 < a {
                                assert(pj[i0].1 == pj[a].1);
                            }
                        }
                    }
                }
            },
            None => {
                let ghost g2 = g;
                g.out.set(s, Some(d));
                assert(forall|t: int| 0 <= t < g.paths.len() && t != s ==> #[trigger] g.out@[t] == g2.out@[t]);
                assert(g.nodes_wf());
                assert(!has_one_to_many(pj1)) by {
                    if has_one_to_many(pj1) {
                        let (a, b) = choose|a: int, b: int|
                            0 <= a < b < pj1.len() && #[trigger] pj1[a].0 == #[trigger] pj1[b].0
                                && pj1[a].1 != pj1[b].1;
                        if b < j {
                            assert(pj[a].0 == pj[b].0 && pj[a].1 != pj[b].1);
                        } else {
                            assert(pj[a].0 == g.paths@[s as int]@);
                            let (s2, d2) = ids[a];
                            assert(g0.paths@[s2 as int]@ == p[a].0);
                            assert(g2.out@[s2 as int] == Some(d2));
                            assert(false);
                        }
                    }
                }
            },
        }
        proof {
            assert forall|k: int| 0 <= k < g.paths.len() implies is_endpoint(pj1, #[trigger] g.paths@[k]@) by {
                if k == s {
                    assert(pj1[j as int].0 == g.paths@[s as int]@);
                } else if k == d {
                    assert(pj1[j as int].1 == g.paths@[d as int]@);
                } else {
                    assert(k < g0.paths.len());
                    assert(g.paths@[k]@ == g1.paths@[k]@);
                    assert(g1.paths@[k]@ == g0.paths@[k]@);
                    lemma_endpoint_extend(p, j as int, g0.paths@[k]@);
                }
            }
        }
        proof {
            ids = ids.push((s, d));
        }
        j += 1;
    }
    assert(p.take(j as int) =~= p);
    g.pair_nodes = Ghost(ids);
    let g = validate_sources(g, Ghost(p))?;
    check_nesting(&g, Ghost(p))?;
    Ok(g)
}

/// Builds the reverse table and checks that no destination has two sources.
fn validate_sources(g: Graph, Ghost(p): Ghost<Seq<(Seq<char>, Seq<char>)>>) -> (r: Result<
    Graph,
    Error,
>)
    requires
        g.nodes_wf(),
        g.models(p),
        !has_one_to_many(p),
    ensures
        match r {
            Ok(h) => {
                &&& h.wf()
                &&& h.models(p)
                &&& !has_many_to_one(p)
            },
            Err(Error::ManyToOne { src, dst }) => {
                &&& has_many_to_one(p)
                &&& src.0@ != src.1@
                &&& maps(p, src.0@, dst@)
                &&& maps(p, src.1@, dst@)
            },
            Err(_) => false,
        },
{
    let mut g = g;
    let n = g.paths.len();
    let mut inn: Vec<Option<usize>> = Vec::new();
    while inn.len() < n
        invariant
            inn.len() <= n,
            forall|d: int| 0 <= d < inn.len() ==> #[trigger] inn@[d] is None,
        decreases n - inn.len(),
    {
        inn.push(None);
    }
    let mut s: usize = 0;
    while s < n
        invariant
            n == g.paths.len(),
            g.nodes_wf(),
            g.models(p),
            inn.len() == n,
            s <= n,
            forall|d: int, t: int|
                0 <= d < n && 0 <= t < n ==> (#[trigger] inn@[d] == Some(t as usize) <==> (t < s
                    && #[trigger] g.out@[t] == Some(d as usize))),
            forall|d: int| 0 <= d < n && #[trigger] inn@[d] is Some ==> inn@[d]->0 < s,
        decreases n - s,
    {
        if let Some(d) = g.out[s] {
            match inn[d] {
                Some(s0) => {
                    assert(g.out@[s0 as int] == Some(d));
                    assert(g.paths@[s0 as int]@ != g.paths@[s as int]@);
                    let e = Error::ManyToOne {
                        src: (g.names[s0].clone(), g.names[s].clone()),
                        dst: g.names[d].clone(),
                    };
                    proof {
                        let i0 = choose|i: int| 0 <= i < p.len() && #[trigger] p[i] == (g.paths@[s0 as int]@, g.paths@[d as int]@);
                        let i1 = choose|i: int| 0 <= i < p.len() && #[trigger] p[i] == (g.paths@[s as int]@, g.paths@[d as int]@);
                        assert(p[i0].1 == p[i1].1 && p[i0].0 != p[i1].0);
                    }
                    return Err(e);
                },
                None => {
                    inn.set(d, Some(s));
                },
            }
        }
        s += 1;
    }
    assert(!has_many_to_one(p)) by {
        if has_many_to_one(p) {
            let (i, j) = choose|i: int, j: int|
                0 <= i < p.len() && 0 <= j < p.len() && #[trigger] p[i].1 == #[trigger] p[j].1
                    && p[i].0 != p[j].0;
            let si = g.pair_nodes@[i].0 as int;
            let di = g.pair_nodes@[i].1 as int;
            let sj = g.pair_nodes@[j].0 as int;
            let dj = g.pair_nodes@[j].1 as int;
            if di != dj {
                assert(g.paths@[di]@ != g.paths@[dj]@);
            }
            if si == sj {
                assert(g.paths@[si]@ == g.paths@[sj]@);
            }
            assert(inn@[di] == Some(si as usize));
            assert(inn@[di] == Some(sj as usize));
        }
    }
    g.inn = inn;
    Ok(g)
}

/// The node of an endpoint of the batch.
proof fn lemma_node_of(g: &Graph, p: Seq<(Seq<char>, Seq<char>)>, x: Seq<char>) -> (k: int)
    requires
        g.models(p),
        is_endpoint(p, x),
    ensures
        0 <= k < g.paths.len(),
        g.paths@[k]@ == x,
{
    let i = choose|i: int| 0 <= i < p.len() && (#[trigger] p[i].0 == x || p[i].1 == x);
    let (s, d) = g.pair_nodes@[i];
    if p[i].0 == x {
        s as int
    } else {
        d as int
    }
}

/// The nodes sorted by `path_le`.
fn sorted_nodes(g: &Graph) -> (order: Vec<usize>)
    requires
        g.nodes_wf(),
    ensures
        order.len() == g.paths.len(),
        forall|a: int| 0 <= a < order.len() ==> #[trigger] order@[a] < order.len(),
        forall|a: int, b: int|
            0 <= a < b < order.len() ==> #[trigger] order@[a] != #[trigger] order@[b],
        forall|t: usize| t < order.len() ==> #[trigger] order@.contains(t),
        forall|a: int, b: int|
            0 <= a < b < order.len() ==> path_le(
                #[trigger] g.paths@[order@[a] as int]@,
                #[trigger] g.paths@[order@[b] as int]@,
            ),
{
    let n = g.paths.len();
    let mut order: Vec<usize> = Vec::new();
    let mut k: usize = 0;
    while k < n
        invariant
            n == g.paths.len(),
            k <= n,
            order.len() == k,
            forall|a: int| 0 <= a < k ==> #[trigger] order@[a] < k,
            forall|a: int, b: int| 0 <= a < b < k ==> #[trigger] order@[a] != #[trigger] order@[b],
            forall|t: usize| t < k ==> #[trigger] order@.contains(t),
            forall|a: int, b: int|
                0 <= a < b < k ==> path_le(
                    #[trigger] g.paths@[order@[a] as int]@,
                    #[trigger] g.paths@[order@[b] as int]@,
                ),
        decreases n - k,
    {
        let mut pos: usize = 0;
        while pos < order.len() && sorts_before(&g.paths[order[pos]], &g.paths[k])
            invariant
                n == g.paths.len(),
                k < n,
                order.len() == k,
                pos <= k,
                forall|a: int| 0 <= a < k ==> #[trigger] order@[a] < k,
                forall|a: int| 0 <= a < pos ==> path_le(#[trigger] g.paths@[order@[a] as int]@, g.paths@[k as int]@),
            decreases k - pos,
        {
            pos += 1;
        }
        let ghost old_order = order@;
        proof {
            if pos < k {
                lemma_le_total(g.paths@[k as int]@, g.paths@[old_order[pos as int] as int]@);
            }
        }
        order.insert(pos, k);
        assert(forall|a: int| 0 <= a < pos ==> #[trigger] order@[a] == old_order[a]);
        assert(forall|a: int| pos < a <= k ==> #[trigger] order@[a] == old_order[a - 1]);
        proof {
            assert forall|a: int, b: int| 0 <= a < b < k + 1 implies path_le(
                #[trigger] g.paths@[order@[a] as int]@,
                #[trigger] g.paths@[order@[b] as int]@,
            ) by {
                if b == pos {
                } else if a == pos {
                    if b - 1 > pos {
                        lemma_le_transitive(
                            g.paths@[k as int]@,
                            g.paths@[old_order[pos as int] as int]@,
                            g.paths@[old_order[b - 1] as int]@,
                        );
                    }
                } else if a < pos && b > pos {
                    let x = g.paths@[old_order[a] as int]@;
                    let y = g.paths@[old_order[b - 1] as int]@;
                    assert(path_le(x, g.paths@[k as int]@));
                    if b - 1 > pos {
                        lemma_le_transitive(
                            g.paths@[k as int]@,
                            g.paths@[old_order[pos as int] as int]@,
                            y,
                        );
                    }
                    lemma_le_transitive(x, g.paths@[k as int]@, y);
                } else if a > pos {
                    assert(path_le(g.paths@[old_order[a - 1] as int]@, g.paths@[old_order[b - 1] as int]@));
                } else {
                    assert(path_le(g.paths@[old_order[a] as int]@, g.paths@[old_order[b] as int]@));
                }
            }
            assert forall|t: usize| t < k + 1 implies #[trigger] order@.contains(t) by {
                if t == k {
                    assert(order@[pos as int] == t);
                } else {
                    assert(old_order.contains(t));
                    let a = choose|a: int| 0 <= a < k && #[trigger] old_order[a] == t;
                    if a < pos {
                        assert(order@[a] == t);
                    } else {
                        assert(order@[a + 1] == t);
                    }
                }
            }
        }
        k += 1;
    }
    order
}

/// Checks that no path of the batch lies inside another, by looking at each
/// pair of neighbours in sorted order.
fn check_nesting(g: &Graph, Ghost(p): Ghost<Seq<(Seq<char>, Seq<char>)>>) -> (r: Result<(), Error>)
    requires
        g.wf(),
        g.models(p),
    ensures
        match r {
            Ok(()) => !has_nesting(p),
            Err(Error::NonLeafNode { node, descendant }) => {
                &&& has_nesting(p)
                &&& is_endpoint(p, node@)
                &&& is_endpoint(p, descendant@)
                &&& is_ancestor(node@, descendant@)
            },
            Err(_) => false,
        },
{
    let order = sorted_nodes(g);
    let n = order.len();
    let mut i: usize = 0;
    while n > 0 && i < n - 1
        invariant
            g.wf(),
            g.models(p),
            n == order.len() == g.paths.len(),
            i < n || n == 0,
            forall|a: int| 0 <= a < order.len() ==> #[trigger] order@[a] < order.len(),
            forall|a: int|
                0 <= a < i ==> !is_ancestor(
                    #[trigger] g.paths@[order@[a] as int]@,
                    g.paths@[order@[a + 1] as int]@,
                ),
        decreases n - i,
    {
        if is_ancestor_of(&g.paths[order[i]], &g.paths[order[i + 1]]) {
            let e = Error::NonLeafNode {
                node: g.names[order[i]].clone(),
                descendant: g.names[order[i + 1]].clone(),
            };
            proof {
                let x = g.paths@[order@[i as int] as int]@;
                let y = g.paths@[order@[i + 1] as int]@;
                assert(is_endpoint(p, x));
                assert(is_endpoint(p, y));
            }
            return Err(e);
        }
        i += 1;
    }
    assert(!has_nesting(p)) by {
        if has_nesting(p) {
            let (x, y) = choose|x: Seq<char>, y: Seq<char>|
                #[trigger] is_endpoint(p, x) && #[trigger] is_endpoint(p, y) && is_ancestor(x, y);
            let kx = lemma_node_of(g, p, x);
            let ky = lemma_node_of(g, p, y);
            assert(order@.contains(kx as usize));
            assert(order@.contains(ky as usize));
            let a = choose|a: int| 0 <= a < n && #[trigger] order@[a] == kx as usize;
            let b = choose|b: int| 0 <= b < n && #[trigger] order@[b] == ky as usize;
            lemma_ancestor_le(x, y);
            if b < a {
                lemma_le_antisymmetric(x, y);
            } else {
                assert(a != b);
                let r = g.paths@[order@[a + 1] as int]@;
                assert(r != x);
                if a + 1 == b {
                    lemma_prefix_le(y, y);
                }
                lemma_between_is_descendant(x, y, r);
            }
        }
    }
    Ok(())
}

} // verus!
