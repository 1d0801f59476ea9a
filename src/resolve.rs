//! Ordering a checked batch into renames that can run one after the other:
//! each chain is renamed from its far end, and each cycle is broken through
//! a temporary path.
use crate::conflict::{is_endpoint, maps, position_of, Graph};
use crate::mapping::Mapping;
use crate::path::{chars_of, lemma_temp_path_injective, string_of, temp_candidate, temp_path};
use vstd::prelude::*;
use vstd::set_lib::{lemma_len_subset, set_int_range, lemma_int_range};

verus! {

broadcast use vstd::seq_lib::seq_to_set_is_finite;

/// The views of a list of paths.
pub open spec fn views(v: Seq<Vec<char>>) -> Seq<Seq<char>> {
    v.map_values(|x: Vec<char>| x@)
}

/// The node that node `w` is renamed to, unless the rename is a no-op.
pub open spec fn succ(g: &Graph, w: int) -> Option<usize> {
    if g.out@[w] == Some(w as usize) {
        None
    } else {
        g.out@[w]
    }
}

/// The node that is renamed to node `w`, unless the rename is a no-op.
pub open spec fn pred(g: &Graph, w: int) -> Option<usize> {
    if g.inn@[w] == Some(w as usize) {
        None
    } else {
        g.inn@[w]
    }
}

proof fn lemma_succ_pred(g: &Graph, w: int, v: int)
    requires
        g.wf(),
        0 <= w < g.paths.len(),
        0 <= v < g.paths.len(),
    ensures
        succ(g, w) == Some(v as usize) <==> pred(g, v) == Some(w as usize),
{
}

fn succ_of(g: &Graph, w: usize) -> (r: Option<usize>)
    requires
        g.wf(),
        w < g.paths.len(),
    ensures
        r == succ(g, w as int),
        r is Some ==> r->0 < g.paths.len(),
{
    match g.out[w] {
        Some(v) => if v == w {
            None
        } else {
            Some(v)
        },
        None => None,
    }
}

fn pred_of(g: &Graph, w: usize) -> (r: Option<usize>)
    requires
        g.wf(),
        w < g.paths.len(),
    ensures
        r == pred(g, w as int),
        r is Some ==> r->0 < g.paths.len(),
{
    match g.inn[w] {
        Some(v) => if v == w {
            None
        } else {
            Some(v)
        },
        None => None,
    }
}

/// A list of distinct numbers below `n` holds at most `n` of them.
proof fn lemma_distinct_below(s: Seq<usize>, n: int)
    requires
        0 <= n,
        s.no_duplicates(),
        forall|i: int| 0 <= i < s.len() ==> #[trigger] s[i] < n,
    ensures
        s.len() <= n,
{
    let t = s.map_values(|v: usize| v as int);
    assert forall|a: int, b: int| 0 <= a < b < t.len() implies t[a] != t[b] by {
        assert(s[a] != s[b]);
    }
    t.unique_seq_to_set();
    lemma_int_range(0, n);
    assert(t.to_set().subset_of(set_int_range(0, n)));
    lemma_len_subset(t.to_set(), set_int_range(0, n));
}

/// Nodes that are marked visited form whole components: the nodes that
/// they are renamed to or from are marked too.
pub open spec fn closed(g: &Graph, visited: Seq<bool>) -> bool {
    &&& visited.len() == g.paths.len()
    &&& forall|w: int|
        0 <= w < visited.len() && #[trigger] visited[w] ==> (succ(g, w) is Some ==> visited[succ(
            g,
            w,
        )->0 as int]) && (pred(g, w) is Some ==> visited[pred(g, w)->0 as int])
}

/// `w` lists a component of the graph in the order of its renames: each node
/// is renamed to the next one. A chain starts at a node that nothing is
/// renamed to and ends at one that is renamed to nothing; the last node of a
/// cycle is renamed to its first.
pub open spec fn is_component(g: &Graph, w: Seq<usize>, cyclic: bool) -> bool {
    &&& w.len() >= 2
    &&& w.no_duplicates()
    &&& forall|i: int| 0 <= i < w.len() ==> #[trigger] w[i] < g.paths.len()
    &&& forall|i: int| 0 <= i < w.len() - 1 ==> succ(g, #[trigger] w[i] as int) == Some(w[i + 1])
    &&& if cyclic {
        succ(g, w.last() as int) == Some(w[0])
    } else {
        pred(g, w[0] as int) is None && succ(g, w.last() as int) is None
    }
}

/// The component of node `u`, which is not visited yet and is renamed.
fn find_component(g: &Graph, visited: &Vec<bool>, u: usize) -> (r: (Vec<usize>, bool))
    requires
        g.wf(),
        closed(g, visited@),
        u < g.paths.len(),
        !visited@[u as int],
        succ(g, u as int) is Some,
    ensures
        is_component(g, r.0@, r.1),
        r.0@.contains(u),
        forall|i: int| 0 <= i < r.0.len() ==> !visited@[#[trigger] r.0@[i] as int],
{
    let ghost n = g.paths.len() as int;
    let mut back: Vec<usize> = Vec::new();
    back.push(u);
    let mut cyclic = false;
    loop
        invariant_except_break
            g.wf(),
            closed(g, visited@),
            n == g.paths.len(),
            u < n,
            !cyclic,
        invariant
            back.len() >= 1,
            back@[0] == u,
            back@.no_duplicates(),
            forall|i: int| 0 <= i < back.len() ==> #[trigger] back@[i] < n,
            forall|i: int| 0 <= i < back.len() ==> !visited@[#[trigger] back@[i] as int],
            forall|i: int|
                0 <= i < back.len() - 1 ==> pred(g, #[trigger] back@[i] as int) == Some(
                    back@[i + 1],
                ),
        ensures
            cyclic ==> pred(g, back@.last() as int) == Some(u),
            !cyclic ==> pred(g, back@.last() as int) is None,
        decreases n - back.len(),
    {
        let h = back[back.len() - 1];
        match pred_of(g, h) {
            None => {
                break ;
            },
            Some(x) => {
                if x == u {
                    cyclic = true;
                    break ;
                }
                proof {
                    lemma_succ_pred(g, x as int, h as int);
                    assert forall|i: int| 0 <= i < back.len() implies #[trigger] back@[i] != x by {
                        if back@[i] == x && i > 0 {
                            lemma_succ_pred(g, x as int, back@[i - 1] as int);
                        }
                    }
                    let next = back@.push(x);
                    assert(next.no_duplicates());
                    lemma_distinct_below(next, n);
                }
                back.push(x);
            },
        }
    }
    let mut walk: Vec<usize> = Vec::new();
    let m = back.len() - 1;
    if cyclic {
        walk.push(u);
        let mut i = back.len();
        while i > 1
            invariant
                1 <= i <= back.len(),
                walk.len() == back.len() - i + 1,
                walk@[0] == u,
                forall|a: int| 1 <= a < walk.len() ==> #[trigger] walk@[a] == back@[back.len() - a],
            decreases i,
        {
            i -= 1;
            walk.push(back[i]);
        }
        proof {
            assert(m >= 1) by {
                if m == 0 {
                    assert(pred(g, u as int) == Some(u));
                }
            }
            assert forall|a: int, b: int| 0 <= a < b < walk.len() implies walk@[a] != walk@[b] by {
                if a == 0 {
                    assert(back@[0] != back@[back.len() - b]);
                } else {
                    assert(back@[back.len() - a] != back@[back.len() - b]);
                }
            }
            assert forall|a: int| 0 <= a < walk.len() - 1 implies succ(g, #[trigger] walk@[a] as int) == Some(walk@[a + 1]) by {
                if a == 0 {
                    lemma_succ_pred(g, u as int, back@[m as int] as int);
                } else {
                    lemma_succ_pred(g, back@[back.len() - a] as int, back@[back.len() - a - 1] as int);
                }
            }
            lemma_succ_pred(g, back@[1] as int, u as int);
            assert(walk@.contains(u));
        }
        return (walk, true);
    }
    let mut i = back.len();
    while i > 0
        invariant
            i <= back.len(),
            walk.len() == back.len() - i,
            forall|a: int| 0 <= a < walk.len() ==> #[trigger] walk@[a] == back@[back.len() - 1 - a],
        decreases i,
    {
        i -= 1;
        walk.push(back[i]);
    }
    proof {
        assert forall|a: int, b: int| 0 <= a < b < walk.len() implies walk@[a] != walk@[b] by {
            assert(back@[back.len() - 1 - a] != back@[back.len() - 1 - b]);
        }
        assert forall|a: int| 0 <= a < walk.len() - 1 implies succ(g, #[trigger] walk@[a] as int) == Some(walk@[a + 1]) by {
            lemma_succ_pred(g, back@[back.len() - 1 - a] as int, back@[back.len() - 2 - a] as int);
        }
        assert(walk@[m as int] == u);
    }
    let mut cur = u;
    loop
        invariant
            g.wf(),
            succ(g, u as int) is Some,
            closed(g, visited@),
            n == g.paths.len(),
            walk.len() >= 1,
            walk@.no_duplicates(),
            walk@[m as int] == u,
            m < walk.len(),
            cur == walk@.last(),
            pred(g, walk@[0] as int) is None,
            forall|a: int| 0 <= a < walk.len() ==> #[trigger] walk@[a] < n,
            forall|a: int| 0 <= a < walk.len() ==> !visited@[#[trigger] walk@[a] as int],
            forall|a: int|
                0 <= a < walk.len() - 1 ==> succ(g, #[trigger] walk@[a] as int) == Some(
                    walk@[a + 1],
                ),
        ensures
            succ(g, cur as int) is None,
        decreases n - walk.len(),
    {
        match succ_of(g, cur) {
            None => {
                break ;
            },
            Some(v) => {
                proof {
                    lemma_succ_pred(g, cur as int, v as int);
                    assert forall|a: int| 0 <= a < walk.len() implies #[trigger] walk@[a] != v by {
                        if walk@[a] == v && a > 0 {
                            lemma_succ_pred(g, walk@[a - 1] as int, v as int);
                        }
                    }
                    let next = walk@.push(v);
                    assert(next.no_duplicates());
                    lemma_distinct_below(next, n);
                }
                walk.push(v);
                cur = v;
            },
        }
    }
    proof {
        assert(walk.len() >= 2) by {
            if walk.len() < 2 {
                assert(walk@[m as int] == cur);
            }
        }
        assert(walk@.contains(u));
    }
    (walk, false)
}

/// The first candidate temporary name next to `base` that `taken` does not
/// hold. One of the first `taken.len() + 1` candidates is free, since they
/// are all distinct.
fn fresh_temp(base: &Vec<char>, taken: &Vec<Vec<char>>) -> (t: Vec<char>)
    ensures
        !views(taken@).contains(t@),
        exists|i: nat| t@ == temp_path(base@, i),
{
    let ghost tv = views(taken@);
    let mut i: usize = 0;
    let ghost mut tried: Seq<Seq<char>> = Seq::empty();
    loop
        invariant
            tv == views(taken@),
            i <= taken.len(),
            tried.len() == i,
            tried.no_duplicates(),
            forall|j: int| 0 <= j < i ==> #[trigger] tried[j] == temp_path(base@, j as nat),
            forall|j: int| 0 <= j < i ==> tv.contains(#[trigger] tried[j]),
        decreases taken.len() - i,
    {
        let c = temp_candidate(base, i);
        match position_of(taken, &c) {
            None => {
                assert(!tv.contains(c@)) by {
                    if tv.contains(c@) {
                        let k = choose|k: int| 0 <= k < tv.len() && tv[k] == c@;
                        assert(taken@[k]@ == c@);
                    }
                }
                return c;
            },
            Some(k) => {
                proof {
                    assert(tv[k as int] == c@);
                    let next = tried.push(c@);
                    assert forall|a: int, b: int| 0 <= a < b < next.len() implies next[a] != next[b] by {
                        if next[a] == next[b] {
                            lemma_temp_path_injective(base@, a as nat, b as nat);
                        }
                    }
                    next.unique_seq_to_set();
                    assert(next.to_set().subset_of(tv.to_set()));
                    lemma_len_subset(next.to_set(), tv.to_set());
                    tv.lemma_cardinality_of_set();
                    tried = next;
                }
                i += 1;
            },
        }
    }
}

/// The steps of a queue, as source and destination paths.
pub open spec fn steps(q: Seq<Mapping>) -> Seq<(Seq<char>, Seq<char>)> {
    q.map_values(|m: Mapping| m@)
}

/// Whether `q` carries out the rename of `x` to `y`: in one step, or in two
/// steps through a temporary path that is no path of the batch `p`.
pub open spec fn routes(
    p: Seq<(Seq<char>, Seq<char>)>,
    q: Seq<(Seq<char>, Seq<char>)>,
    x: Seq<char>,
    y: Seq<char>,
) -> bool {
    ||| q.contains((x, y))
    ||| exists|t: Seq<char>|
        !is_endpoint(p, t) && #[trigger] q.contains((x, t)) && #[trigger] q.contains((t, y))
}

/// Whether the step `st` of `q` serves a rename that the batch `p` asks for:
/// it is that rename, or one of the two halves of it that pass through a
/// temporary path.
pub open spec fn serves(
    p: Seq<(Seq<char>, Seq<char>)>,
    q: Seq<(Seq<char>, Seq<char>)>,
    st: (Seq<char>, Seq<char>),
) -> bool {
    ||| maps(p, st.0, st.1) && st.0 != st.1
    ||| !is_endpoint(p, st.1) && exists|y: Seq<char>|
        maps(p, st.0, y) && st.0 != y && #[trigger] q.contains((st.1, y))
    ||| !is_endpoint(p, st.0) && exists|x: Seq<char>|
        maps(p, x, st.1) && x != st.1 && #[trigger] q.contains((x, st.0))
}

/// Whether `q` is a safe order for the batch `p`, where the paths `occupied`
/// exist already: it carries out every rename of `p` but the no-ops, each of
/// its steps serves one of them, no path is the source of two steps or the
/// destination of two steps, a path of the batch is vacated before a step
/// fills it, and a temporary path is free, then filled, then vacated.
pub open spec fn resolves(
    p: Seq<(Seq<char>, Seq<char>)>,
    occupied: Seq<Seq<char>>,
    q: Seq<(Seq<char>, Seq<char>)>,
) -> bool {
    &&& forall|i: int|
        0 <= i < p.len() && #[trigger] p[i].0 != p[i].1 ==> routes(p, q, p[i].0, p[i].1)
    &&& forall|k: int| 0 <= k < q.len() ==> serves(p, q, #[trigger] q[k])
    &&& forall|a: int, b: int|
        0 <= a < b < q.len() ==> #[trigger] q[a].0 != #[trigger] q[b].0 && q[a].1 != q[b].1
    &&& forall|a: int, b: int|
        0 <= a < q.len() && 0 <= b < q.len() && #[trigger] q[a].0 == #[trigger] q[b].1 ==> (
        is_endpoint(p, q[a].0) ==> a < b) && (!is_endpoint(p, q[a].0) ==> b < a)
    &&& forall|k: int|
        0 <= k < q.len() && !is_endpoint(p, #[trigger] q[k].1) ==> !occupied.contains(q[k].1)
}

proof fn lemma_extend(p: Seq<(Seq<char>, Seq<char>)>, q: Seq<(Seq<char>, Seq<char>)>, c: Seq<(Seq<char>, Seq<char>)>)
    ensures
        forall|x: Seq<char>, y: Seq<char>| #[trigger] routes(p, q, x, y) ==> routes(p, q + c, x, y),
        forall|st: (Seq<char>, Seq<char>)| #[trigger] serves(p, q, st) ==> serves(p, q + c, st),
{
    let qc = q + c;
    assert forall|e: (Seq<char>, Seq<char>)| #[trigger] q.contains(e) implies qc.contains(e) by {
        let i = choose|i: int| 0 <= i < q.len() && q[i] == e;
        assert(qc[i] == e);
    }
    assert forall|x: Seq<char>, y: Seq<char>| #[trigger] routes(p, q, x, y) implies routes(p, qc, x, y) by {
        if !q.contains((x, y)) {
            let t = choose|t: Seq<char>|
                !is_endpoint(p, t) && #[trigger] q.contains((x, t)) && #[trigger] q.contains((t, y));
            assert(qc.contains((x, t)) && qc.contains((t, y)));
        }
    }
    assert forall|st: (Seq<char>, Seq<char>)| #[trigger] serves(p, q, st) implies serves(p, qc, st) by {
        if !(maps(p, st.0, st.1) && st.0 != st.1) {
            if !is_endpoint(p, st.1) && exists|y: Seq<char>| maps(p, st.0, y) && st.0 != y && #[trigger] q.contains((st.1, y)) {
                let y = choose|y: Seq<char>| maps(p, st.0, y) && st.0 != y && #[trigger] q.contains((st.1, y));
                assert(qc.contains((st.1, y)));
            } else {
                let x = choose|x: Seq<char>| maps(p, x, st.1) && x != st.1 && #[trigger] q.contains((x, st.0));
                assert(qc.contains((x, st.0)));
            }
        }
    }
}

/// The rename of node `w[a]` to node `w[a + 1]`.
pub open spec fn link(g: &Graph, w: Seq<usize>, a: int) -> (Seq<char>, Seq<char>) {
    (g.paths@[w[a] as int]@, g.paths@[w[a + 1] as int]@)
}

/// The renames along `w`, the last one first.
pub open spec fn chain_steps(g: &Graph, w: Seq<usize>) -> Seq<(Seq<char>, Seq<char>)> {
    Seq::new((w.len() - 1) as nat, |a: int| link(g, w, w.len() - 2 - a))
}

/// The steps of the component `w`: its renames, the last one first; in a
/// cycle, the last rename goes to the temporary path `t` instead, and a final
/// step moves `t` on to the first node.
pub open spec fn component_steps(g: &Graph, w: Seq<usize>, cyclic: bool, t: Seq<char>) -> Seq<
    (Seq<char>, Seq<char>),
> {
    if cyclic {
        seq![(g.paths@[w.last() as int]@, t)] + chain_steps(g, w) + seq![(t, g.paths@[w[0] as int]@)]
    } else {
        chain_steps(g, w)
    }
}

fn push_step(queue: &mut Vec<Mapping>, src: String, dst: String)
    ensures
        steps(final(queue)@) == steps(old(queue)@).push((src@, dst@)),
{
    queue.push(Mapping::new(src, dst));
    assert(steps(final(queue)@) =~= steps(old(queue)@).push((src@, dst@)));
}

/// Appends the steps of the component `walk` to `queue`.
fn emit(g: &Graph, walk: &Vec<usize>, cyclic: bool, t: &Vec<char>, queue: &mut Vec<Mapping>)
    requires
        g.nodes_wf(),
        is_component(g, walk@, cyclic),
    ensures
        steps(final(queue)@) == steps(old(queue)@) + component_steps(g, walk@, cyclic, t@),
{
    let k = walk.len() - 1;
    let ghost q0 = steps(queue@);
    let ghost pre: Seq<(Seq<char>, Seq<char>)> = if cyclic {
        seq![(g.paths@[walk@.last() as int]@, t@)]
    } else {
        Seq::empty()
    };
    if cyclic {
        push_step(queue, g.names[walk[k]].clone(), string_of(t));
    }
    assert(steps(queue@) =~= q0 + pre);
    let mut a: usize = 0;
    while a < k
        invariant
            g.nodes_wf(),
            is_component(g, walk@, cyclic),
            k == walk.len() - 1,
            a <= k,
            steps(queue@) == q0 + pre + chain_steps(g, walk@).take(a as int),
        decreases k - a,
    {
        let i = k - 1 - a;
        push_step(queue, g.names[walk[i]].clone(), g.names[walk[i + 1]].clone());
        assert(chain_steps(g, walk@).take(a + 1) =~= chain_steps(g, walk@).take(a as int).push(
            link(g, walk@, i as int),
        ));
        a += 1;
    }
    assert(chain_steps(g, walk@).take(k as int) =~= chain_steps(g, walk@));
    if cyclic {
        push_step(queue, string_of(t), g.names[walk[0]].clone());
    }
    assert(steps(queue@) =~= q0 + component_steps(g, walk@, cyclic, t@));
}

/// `x` is the path of a node of `w`, or the temporary path `t` of a cycle.
pub open spec fn comp_path(g: &Graph, w: Seq<usize>, cyclic: bool, t: Seq<char>, x: Seq<char>) -> bool {
    ||| exists|i: int| 0 <= i < w.len() && #[trigger] g.paths@[w[i] as int]@ == x
    ||| cyclic && x == t
}

/// `x` is the path of a visited node, or a temporary path in use.
pub open spec fn placed(g: &Graph, visited: Seq<bool>, temps: Seq<Seq<char>>, x: Seq<char>) -> bool {
    ||| exists|w: int| 0 <= w < visited.len() && visited[w] && #[trigger] g.paths@[w]@ == x
    ||| temps.contains(x)
}

/// What holds of the queue `q` while it is built: the visited nodes are
/// handled, and their renames are ordered safely.
pub open spec fn building(
    g: &Graph,
    p: Seq<(Seq<char>, Seq<char>)>,
    occupied: Seq<Seq<char>>,
    visited: Seq<bool>,
    temps: Seq<Seq<char>>,
    taken: Seq<Seq<char>>,
    q: Seq<(Seq<char>, Seq<char>)>,
) -> bool {
    &&& closed(g, visited)
    &&& forall|w: int|
        0 <= w < visited.len() && #[trigger] visited[w] && succ(g, w) is Some ==> routes(
            p,
            q,
            g.paths@[w]@,
            g.paths@[succ(g, w)->0 as int]@,
        )
    &&& forall|k: int| 0 <= k < q.len() ==> serves(p, q, #[trigger] q[k])
    &&& forall|a: int, b: int|
        0 <= a < b < q.len() ==> #[trigger] q[a].0 != #[trigger] q[b].0 && q[a].1 != q[b].1
    &&& forall|a: int, b: int|
        0 <= a < q.len() && 0 <= b < q.len() && #[trigger] q[a].0 == #[trigger] q[b].1 ==> (
        is_endpoint(p, q[a].0) ==> a < b) && (!is_endpoint(p, q[a].0) ==> b < a)
    &&& forall|k: int|
        0 <= k < q.len() && !is_endpoint(p, #[trigger] q[k].1) ==> !occupied.contains(q[k].1)
    &&& forall|k: int|
        0 <= k < q.len() ==> placed(g, visited, temps, #[trigger] q[k].0) && placed(
            g,
            visited,
            temps,
            q[k].1,
        )
    &&& forall|x: Seq<char>|
        #[trigger] temps.contains(x) ==> !is_endpoint(p, x) && !occupied.contains(x)
            && taken.contains(x)
    &&& forall|x: Seq<char>| #[trigger] occupied.contains(x) ==> taken.contains(x)
    &&& forall|k: int| 0 <= k < g.paths.len() ==> taken.contains(#[trigger] g.paths@[k]@)
}

/// Every path of the batch is the path of a node.
proof fn lemma_endpoint_is_node(g: &Graph, p: Seq<(Seq<char>, Seq<char>)>)
    requires
        g.models(p),
    ensures
        forall|x: Seq<char>| #[trigger] is_endpoint(p, x) ==> exists|k: int| 0 <= k < g.paths.len() && #[trigger] g.paths@[k]@ == x,
{
    assert forall|x: Seq<char>| #[trigger] is_endpoint(p, x) implies exists|k: int| 0 <= k < g.paths.len() && #[trigger] g.paths@[k]@ == x by {
        let i = choose|i: int| 0 <= i < p.len() && (#[trigger] p[i].0 == x || p[i].1 == x);
        let (s, d) = g.pair_nodes@[i];
        if p[i].0 == x {
            assert(g.paths@[s as int]@ == x);
        } else {
            assert(g.paths@[d as int]@ == x);
        }
    }
}

/// Appending the steps of a component that no visited node belongs to keeps
/// what `building` states, with the component's nodes visited and its
/// temporary path in use.
proof fn lemma_add_component(
    g: &Graph,
    p: Seq<(Seq<char>, Seq<char>)>,
    occupied: Seq<Seq<char>>,
    vis0: Seq<bool>,
    vis1: Seq<bool>,
    temps0: Seq<Seq<char>>,
    temps1: Seq<Seq<char>>,
    taken0: Seq<Seq<char>>,
    taken1: Seq<Seq<char>>,
    q0: Seq<(Seq<char>, Seq<char>)>,
    w: Seq<usize>,
    cyclic: bool,
    t: Seq<char>,
)
    requires
        g.wf(),
        g.models(p),
        building(g, p, occupied, vis0, temps0, taken0, q0),
        is_component(g, w, cyclic),
        forall|i: int| 0 <= i < w.len() ==> !vis0[#[trigger] w[i] as int],
        vis1.len() == vis0.len(),
        forall|v: int| 0 <= v < vis1.len() ==> #[trigger] vis1[v] == (vis0[v] || w.contains(v as usize)),
        cyclic ==> !taken0.contains(t) && temps1 == temps0.push(t) && taken1 == taken0.push(t),
        !cyclic ==> temps1 == temps0 && taken1 == taken0,
    ensures
        building(g, p, occupied, vis1, temps1, taken1, q0 + component_steps(g, w, cyclic, t)),
{
    let n = g.paths.len() as int;
    let c = component_steps(g, w, cyclic, t);
    let q1 = q0 + c;
    let k = w.len() - 1;
    let off: int = if cyclic { 1 } else { 0 };
    lemma_endpoint_is_node(g, p);
    // The steps of the component, by position.
    assert forall|a: int| 0 <= a < k implies #[trigger] c[off + a] == link(g, w, k - 1 - a) by {}
    if cyclic {
        assert(c[0] == (g.paths@[w[k] as int]@, t));
        assert(c[k + 1] == (t, g.paths@[w[0] as int]@));
        assert(c.len() == k + 2);
    } else {
        assert(c.len() == k);
    }
    // Facts on the nodes of the component and on `t`.
    assert forall|i: int, j: int| 0 <= i < w.len() && 0 <= j < w.len() && i != j implies g.paths@[#[trigger] w[i] as int]@ != g.paths@[#[trigger] w[j] as int]@ by {
        assert(w[i] != w[j]);
    }
    assert(cyclic ==> !is_endpoint(p, t));
    assert forall|i: int| 0 <= i < w.len() implies is_endpoint(p, g.paths@[#[trigger] w[i] as int]@) && (cyclic ==> g.paths@[w[i] as int]@ != t) by {
        if cyclic {
            assert(taken0.contains(g.paths@[w[i] as int]@));
        }
    }
    // A path of the component is no path of the queue so far.
    assert forall|x: Seq<char>| placed(g, vis0, temps0, x) implies (forall|i: int| 0 <= i < w.len() ==> g.paths@[#[trigger] w[i] as int]@ != x) && (cyclic ==> x != t) by {
        if exists|v: int| 0 <= v < vis0.len() && vis0[v] && #[trigger] g.paths@[v]@ == x {
            let v = choose|v: int| 0 <= v < vis0.len() && vis0[v] && #[trigger] g.paths@[v]@ == x;
            assert forall|i: int| 0 <= i < w.len() implies g.paths@[#[trigger] w[i] as int]@ != x by {
                if w[i] as int == v {
                } else {
                    assert(g.paths@[w[i] as int]@ != g.paths@[v]@);
                }
            }
            if cyclic {
                assert(taken0.contains(g.paths@[v]@));
            }
        } else {
            assert(temps0.contains(x));
        }
    }
    // Every path of the component's steps is one of its nodes or `t`.
    assert forall|j: int| 0 <= j < c.len() implies comp_path(g, w, cyclic, t, #[trigger] c[j].0) && comp_path(g, w, cyclic, t, c[j].1) by {
        if cyclic && j == 0 {
            assert(g.paths@[w[k] as int]@ == c[j].0);
        } else if cyclic && j == k + 1 {
            assert(g.paths@[w[0] as int]@ == c[j].1);
        } else {
            let a = j - off;
            assert(c[off + a] == link(g, w, k - 1 - a));
            assert(g.paths@[w[k - 1 - a] as int]@ == c[j].0);
            assert(g.paths@[w[k - a] as int]@ == c[j].1);
        }
    }
    // Within the component, no path is the source or the destination twice.
    assert forall|j1: int, j2: int| 0 <= j1 < j2 < c.len() implies #[trigger] c[j1].0 != #[trigger] c[j2].0 && c[j1].1 != c[j2].1 by {
        if cyclic && j1 == 0 {
            if j2 == k + 1 {
            } else {
                assert(c[j2] == link(g, w, k - 1 - (j2 - 1)));
                assert(g.paths@[w[k] as int]@ != g.paths@[w[k - j2] as int]@);
            }
        } else if cyclic && j2 == k + 1 {
            assert(c[j1] == link(g, w, k - 1 - (j1 - 1)));
            assert(g.paths@[w[k - j1 + 1] as int]@ != g.paths@[w[0] as int]@);
        } else {
            assert(c[j1] == link(g, w, k - 1 - (j1 - off)));
            assert(c[j2] == link(g, w, k - 1 - (j2 - off)));
            assert(g.paths@[w[k - 1 - (j1 - off)] as int]@ != g.paths@[w[k - 1 - (j2 - off)] as int]@);
            assert(g.paths@[w[k - (j1 - off)] as int]@ != g.paths@[w[k - (j2 - off)] as int]@);
        }
    }
    // Within the component, a node is vacated before it is filled, and `t`
    // is filled before it is vacated.
    assert forall|j1: int, j2: int| 0 <= j1 < c.len() && 0 <= j2 < c.len() && #[trigger] c[j1].0 == #[trigger] c[j2].1 implies (is_endpoint(p, c[j1].0) ==> j1 < j2) && (!is_endpoint(p, c[j1].0) ==> j2 < j1) by {
        if cyclic && j1 == k + 1 {
            if j2 != 0 {
                if j2 == k + 1 {
                    assert(g.paths@[w[0] as int]@ != t);
                } else {
                    assert(c[j2] == link(g, w, k - 1 - (j2 - 1)));
                    assert(g.paths@[w[k - j2 + 1] as int]@ != t);
                }
            }
        } else {
            let i1: int = if cyclic && j1 == 0 { k } else { k - 1 - (j1 - off) };
            assert(c[j1].0 == g.paths@[w[i1] as int]@) by {
                if !(cyclic && j1 == 0) {
                    assert(c[j1] == link(g, w, k - 1 - (j1 - off)));
                }
            }
            if cyclic && j2 == 0 {
                assert(false);
            } else {
                let i2: int = if cyclic && j2 == k + 1 { 0 } else { k - (j2 - off) };
                assert(c[j2].1 == g.paths@[w[i2] as int]@) by {
                    if !(cyclic && j2 == k + 1) {
                        assert(c[j2] == link(g, w, k - 1 - (j2 - off)));
                    }
                }
                if i1 != i2 {
                    assert(g.paths@[w[i1] as int]@ != g.paths@[w[i2] as int]@);
                }
            }
        }
    }
    let m = q0.len() as int;
    assert forall|j: int| 0 <= j < m implies #[trigger] q1[j] == q0[j] by {}
    assert forall|j: int| 0 <= j < c.len() implies #[trigger] q1[m + j] == c[j] by {}
    // Old paths and component paths differ.
    assert forall|j1: int, j2: int| 0 <= j1 < m && 0 <= j2 < c.len() implies
        q0[j1].0 != #[trigger] c[j2].0 && q0[j1].0 != c[j2].1 && q0[j1].1 != c[j2].0 && q0[j1].1 != c[j2].1
        && #[trigger] q0[j1] == q0[j1] by {
        assert(placed(g, vis0, temps0, q0[j1].0));
        assert(placed(g, vis0, temps0, q0[j1].1));
        assert(comp_path(g, w, cyclic, t, c[j2].0));
        assert(comp_path(g, w, cyclic, t, c[j2].1));
    }
    // Distinct sources and destinations.
    assert forall|a: int, b: int| 0 <= a < b < q1.len() implies #[trigger] q1[a].0 != #[trigger] q1[b].0 && q1[a].1 != q1[b].1 by {
        if b < m {
            assert(q0[a].0 != q0[b].0);
        } else if a < m {
            assert(q0[a] == q0[a]);
            assert(q1[b] == c[b - m]);
        } else {
            assert(c[a - m].0 != c[b - m].0);
        }
    }
    // The order of vacating and filling.
    assert forall|a: int, b: int| 0 <= a < q1.len() && 0 <= b < q1.len() && #[trigger] q1[a].0 == #[trigger] q1[b].1 implies (is_endpoint(p, q1[a].0) ==> a < b) && (!is_endpoint(p, q1[a].0) ==> b < a) by {
        if a < m && b < m {
            assert(q0[a].0 == q0[b].1);
        } else if a < m {
            assert(q0[a] == q0[a]);
            assert(q1[b] == c[b - m]);
        } else if b < m {
            assert(q0[b] == q0[b]);
            assert(q1[a] == c[a - m]);
        } else {
            assert(c[a - m].0 == c[b - m].1);
        }
    }
    // Where each node of the component is renamed.
    assert forall|i: int| 0 <= i < k implies q1.contains(#[trigger] link(g, w, i)) by {
        assert(q1[m + off + (k - 1 - i)] == c[off + (k - 1 - i)]);
    }
    if cyclic {
        assert(q1[m] == c[0]);
        assert(q1[m + k + 1] == c[k + 1]);
        assert(q1.contains((g.paths@[w[k] as int]@, t)));
        assert(q1.contains((t, g.paths@[w[0] as int]@)));
    }
    // The component's nodes are closed under renaming.
    assert forall|v: int| 0 <= v < vis1.len() && #[trigger] vis1[v] implies (succ(g, v) is Some ==> vis1[succ(g, v)->0 as int]) && (pred(g, v) is Some ==> vis1[pred(g, v)->0 as int]) by {
        if !vis0[v] {
            assert(w.contains(v as usize));
            let i = choose|i: int| 0 <= i < w.len() && w[i] == v as usize;
            if succ(g, v) is Some {
                if i < k {
                    assert(w.contains(w[i + 1]));
                } else {
                    assert(w.contains(w[0]));
                }
            }
            if pred(g, v) is Some {
                if i > 0 {
                    lemma_succ_pred(g, w[i - 1] as int, v);
                    assert(w.contains(w[i - 1]));
                } else {
                    lemma_succ_pred(g, w[k] as int, v);
                    assert(w.contains(w[k]));
                }
            }
        }
    }
    lemma_extend(p, q0, c);
    // Every visited node is routed to its destination.
    assert forall|v: int| 0 <= v < vis1.len() && #[trigger] vis1[v] && succ(g, v) is Some implies routes(p, q1, g.paths@[v]@, g.paths@[succ(g, v)->0 as int]@) by {
        if vis0[v] {
            assert(routes(p, q0, g.paths@[v]@, g.paths@[succ(g, v)->0 as int]@));
        } else {
            assert(w.contains(v as usize));
            let i = choose|i: int| 0 <= i < w.len() && w[i] == v as usize;
            if i < k {
                assert(q1.contains(link(g, w, i)));
            } else {
                assert(q1.contains((g.paths@[w[k] as int]@, t)));
            }
        }
    }
    // Every step serves a rename of the batch.
    assert forall|j: int| 0 <= j < q1.len() implies serves(p, q1, #[trigger] q1[j]) by {
        if j < m {
            assert(serves(p, q0, q0[j]));
        } else {
            let jj = j - m;
            if cyclic && jj == 0 {
                assert(g.out@[w[k] as int] == Some(w[0]));
                assert(maps(p, g.paths@[w[k] as int]@, g.paths@[w[0] as int]@));
                assert(g.paths@[w[k] as int]@ != g.paths@[w[0] as int]@);
                assert(q1.contains((t, g.paths@[w[0] as int]@)));
            } else if cyclic && jj == k + 1 {
                assert(g.out@[w[k] as int] == Some(w[0]));
                assert(maps(p, g.paths@[w[k] as int]@, g.paths@[w[0] as int]@));
                assert(g.paths@[w[k] as int]@ != g.paths@[w[0] as int]@);
                assert(q1.contains((g.paths@[w[k] as int]@, t)));
            } else {
                let i = k - 1 - (jj - off);
                assert(c[jj] == link(g, w, i));
                assert(g.out@[w[i] as int] == Some(w[i + 1]));
                assert(maps(p, g.paths@[w[i] as int]@, g.paths@[w[i + 1] as int]@));
                assert(g.paths@[w[i] as int]@ != g.paths@[w[i + 1] as int]@);
            }
        }
    }
    // Temporary destinations are free.
    assert forall|j: int| 0 <= j < q1.len() && !is_endpoint(p, #[trigger] q1[j].1) implies !occupied.contains(q1[j].1) by {
        if j < m {
            assert(q1[j] == q0[j]);
        } else {
            assert(comp_path(g, w, cyclic, t, c[j - m].1));
            if cyclic && q1[j].1 == t {
                if occupied.contains(t) {
                    assert(taken0.contains(t));
                }
            } else {
                let i = choose|i: int| 0 <= i < w.len() && #[trigger] g.paths@[w[i] as int]@ == c[j - m].1;
                assert(is_endpoint(p, g.paths@[w[i] as int]@));
            }
        }
    }
    // Every path of the queue is placed.
    assert forall|x: Seq<char>| placed(g, vis0, temps0, x) implies placed(g, vis1, temps1, x) by {
        if exists|v: int| 0 <= v < vis0.len() && vis0[v] && #[trigger] g.paths@[v]@ == x {
            let v = choose|v: int| 0 <= v < vis0.len() && vis0[v] && #[trigger] g.paths@[v]@ == x;
            assert(vis1[v]);
        } else {
            assert(temps0.contains(x));
            let i = choose|i: int| 0 <= i < temps0.len() && temps0[i] == x;
            assert(temps1[i] == x);
        }
    }
    assert forall|x: Seq<char>| comp_path(g, w, cyclic, t, x) implies placed(g, vis1, temps1, x) by {
        if cyclic && x == t {
            assert(temps1[temps0.len() as int] == t);
        } else {
            let i = choose|i: int| 0 <= i < w.len() && #[trigger] g.paths@[w[i] as int]@ == x;
            assert(w.contains(w[i]));
            assert(vis1[w[i] as int]);
        }
    }
    assert forall|j: int| 0 <= j < q1.len() implies placed(g, vis1, temps1, #[trigger] q1[j].0) && placed(g, vis1, temps1, q1[j].1) by {
        if j < m {
            assert(q1[j] == q0[j]);
            assert(placed(g, vis0, temps0, q0[j].0) && placed(g, vis0, temps0, q0[j].1));
        } else {
            assert(q1[j] == c[j - m]);
            assert(comp_path(g, w, cyclic, t, c[j - m].0) && comp_path(g, w, cyclic, t, c[j - m].1));
        }
    }
    // What is in use stays taken.
    assert forall|x: Seq<char>| #[trigger] taken0.contains(x) implies taken1.contains(x) by {
        let i = choose|i: int| 0 <= i < taken0.len() && taken0[i] == x;
        assert(taken1[i] == x);
    }
    assert forall|x: Seq<char>| #[trigger] temps1.contains(x) implies !is_endpoint(p, x) && !occupied.contains(x) && taken1.contains(x) by {
        if temps0.contains(x) {
        } else {
            let i = choose|i: int| 0 <= i < temps1.len() && temps1[i] == x;
            assert(cyclic && x == t);
            assert(taken1[taken0.len() as int] == t);
            if is_endpoint(p, t) {
                let kk = choose|kk: int| 0 <= kk < g.paths.len() && #[trigger] g.paths@[kk]@ == t;
                assert(taken0.contains(g.paths@[kk]@));
            }
        }
    }
}

/// The views of a list of strings.
pub open spec fn string_views(v: Seq<String>) -> Seq<Seq<char>> {
    v.map_values(|x: String| x@)
}

/// Orders the renames of a checked batch `p` so that they can run one after
/// the other. `occupied` lists paths that exist already: temporary paths
/// avoid them, every path of the batch, and one another.
pub(crate) fn resolve(g: &Graph, occupied: &Vec<String>, Ghost(p): Ghost<Seq<(Seq<char>, Seq<char>)>>) -> (queue: Vec<Mapping>)
    requires
        g.wf(),
        g.models(p),
    ensures
        resolves(p, string_views(occupied@), steps(queue@)),
{
    let n = g.paths.len();
    let ghost occ = string_views(occupied@);
    let mut taken: Vec<Vec<char>> = Vec::new();
    let mut i: usize = 0;
    while i < occupied.len()
        invariant
            i <= occupied.len(),
            occ == string_views(occupied@),
            forall|j: int| 0 <= j < i ==> views(taken@).contains(#[trigger] occ[j]),
        decreases occupied.len() - i,
    {
        let ghost before = views(taken@);
        taken.push(chars_of(occupied[i].as_str()));
        proof {
            assert(views(taken@) =~= before.push(occ[i as int]));
            assert forall|j: int| 0 <= j < i + 1 implies views(taken@).contains(#[trigger] occ[j]) by {
                if j < i {
                    let x = choose|x: int| 0 <= x < before.len() && before[x] == occ[j];
                    assert(views(taken@)[x] == occ[j]);
                } else {
                    assert(views(taken@)[before.len() as int] == occ[j]);
                }
            }
        }
        i += 1;
    }
    let mut k: usize = 0;
    while k < n
        invariant
            g.wf(),
            n == g.paths.len(),
            k <= n,
            occ == string_views(occupied@),
            forall|j: int| 0 <= j < occupied.len() ==> views(taken@).contains(#[trigger] occ[j]),
            forall|j: int| 0 <= j < k ==> views(taken@).contains(#[trigger] g.paths@[j]@),
        decreases n - k,
    {
        let ghost before = views(taken@);
        taken.push(chars_of(g.names[k].as_str()));
        proof {
            assert(views(taken@) =~= before.push(g.paths@[k as int]@));
            assert forall|x: Seq<char>| before.contains(x) implies views(taken@).contains(x) by {
                let y = choose|y: int| 0 <= y < before.len() && before[y] == x;
                assert(views(taken@)[y] == x);
            }
            assert(views(taken@)[before.len() as int] == g.paths@[k as int]@);
        }
        k += 1;
    }
    let mut visited: Vec<bool> = Vec::new();
    while visited.len() < n
        invariant
            visited.len() <= n,
            forall|v: int| 0 <= v < visited.len() ==> !#[trigger] visited@[v],
        decreases n - visited.len(),
    {
        visited.push(false);
    }
    let mut queue: Vec<Mapping> = Vec::new();
    let ghost mut temps: Seq<Seq<char>> = Seq::empty();
    proof {
        assert forall|x: Seq<char>| #[trigger] occ.contains(x) implies views(taken@).contains(x) by {
            let j = choose|j: int| 0 <= j < occ.len() && occ[j] == x;
        }
    }
    let mut u: usize = 0;
    while u < n
        invariant
            g.wf(),
            g.models(p),
            n == g.paths.len(),
            u <= n,
            visited.len() == n,
            occ == string_views(occupied@),
            building(g, p, occ, visited@, temps, views(taken@), steps(queue@)),
            forall|v: int| 0 <= v < u && succ(g, v) is Some ==> #[trigger] visited@[v],
        decreases n - u,
    {
        if !visited[u] && succ_of(g, u).is_some() {
            let (walk, cyclic) = find_component(g, &visited, u);
            let t = if cyclic {
                fresh_temp(&g.paths[walk[walk.len() - 1]], &taken)
            } else {
                Vec::new()
            };
            let ghost tv = t@;
            let ghost vis0 = visited@;
            let ghost q0 = steps(queue@);
            let ghost taken0 = views(taken@);
            let ghost temps0 = temps;
            emit(g, &walk, cyclic, &t, &mut queue);
            let mut a: usize = 0;
            while a < walk.len()
                invariant
                    n == g.paths.len(),
                    visited.len() == n,
                    a <= walk.len(),
                    is_component(g, walk@, cyclic),
                    forall|v: int|
                        0 <= v < n ==> #[trigger] visited@[v] == (vis0[v] || exists|b: int|
                            0 <= b < a && #[trigger] walk@[b] == v as usize),
                decreases walk.len() - a,
            {
                let ghost before = visited@;
                visited.set(walk[a], true);
                proof {
                    assert forall|v: int| 0 <= v < n implies #[trigger] visited@[v] == (vis0[v] || exists|b: int|
                        0 <= b < a + 1 && #[trigger] walk@[b] == v as usize) by {
                        if v == walk@[a as int] as int {
                            assert(walk@[a as int] == v as usize);
                        } else {
                            assert(visited@[v] == before[v]);
                        }
                    }
                }
                a += 1;
            }
            if cyclic {
                let ghost before = views(taken@);
                taken.push(t);
                proof {
                    temps = temps.push(tv);
                    assert(views(taken@) =~= before.push(tv));
                }
            }
            proof {
                assert forall|v: int| 0 <= v < n implies #[trigger] visited@[v] == (vis0[v] || walk@.contains(v as usize)) by {
                    if walk@.contains(v as usize) {
                        let b = choose|b: int| 0 <= b < walk.len() && walk@[b] == v as usize;
                        assert(walk@[b] == v as usize);
                    }
                }
                lemma_add_component(g, p, occ, vis0, visited@, temps0, temps, taken0, views(taken@), q0, walk@, cyclic, tv);
                let b = choose|b: int| 0 <= b < walk.len() && walk@[b] == u;
                assert(walk@[b] == u);
            }
        }
        u += 1;
    }
    proof {
        let q = steps(queue@);
        assert forall|i: int| 0 <= i < p.len() && #[trigger] p[i].0 != p[i].1 implies routes(p, q, p[i].0, p[i].1) by {
            let (s, d) = g.pair_nodes@[i];
            assert(g.out@[s as int] == Some(d));
            assert(succ(g, s as int) == Some(d));
            assert(visited@[s as int]);
        }
    }
    queue
}

} // verus!
