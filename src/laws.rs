//! What holds of every batch and every queue, stated over a model of the
//! file system that maps each existing path to what lies there.
use crate::conflict::{accepts, has_many_to_one, has_one_to_many, is_endpoint, maps};
use crate::queue::next_of;
use crate::resolve::{resolves, routes, serves};
use vstd::prelude::*;

verus! {

/// The file system after the rename `st`, where it can run: its source
/// exists and its destination does not.
pub open spec fn apply_step(fs: Map<Seq<char>, int>, st: (Seq<char>, Seq<char>)) -> Option<
    Map<Seq<char>, int>,
> {
    if fs.contains_key(st.0) && !fs.contains_key(st.1) {
        Some(fs.remove(st.0).insert(st.1, fs[st.0]))
    } else {
        None
    }
}

/// The file system after the renames `q`, one after the other, where each
/// of them can run.
pub open spec fn run(fs: Map<Seq<char>, int>, q: Seq<(Seq<char>, Seq<char>)>) -> Option<
    Map<Seq<char>, int>,
>
    decreases q.len(),
{
    if q.len() == 0 {
        Some(fs)
    } else {
        match apply_step(fs, q[0]) {
            Some(next) => run(next, q.drop_first()),
            None => None,
        }
    }
}

/// The renames that revert `q`: each of them turned around, the last one
/// first.
pub open spec fn undo(q: Seq<(Seq<char>, Seq<char>)>) -> Seq<(Seq<char>, Seq<char>)> {
    Seq::new(q.len(), |i: int| (q[q.len() - 1 - i].1, q[q.len() - 1 - i].0))
}

proof fn lemma_run_append(
    fs: Map<Seq<char>, int>,
    a: Seq<(Seq<char>, Seq<char>)>,
    b: Seq<(Seq<char>, Seq<char>)>,
)
    ensures
        run(fs, a + b) == match run(fs, a) {
            Some(f) => run(f, b),
            None => None,
        },
    decreases a.len(),
{
    if a.len() > 0 {
        assert((a + b).drop_first() =~= a.drop_first() + b);
        assert((a + b)[0] == a[0]);
        if let Some(next) = apply_step(fs, a[0]) {
            lemma_run_append(next, a.drop_first(), b);
        }
    } else {
        assert(a + b =~= b);
    }
}

/// Reverting after applying gives back the file system as it was: where the
/// renames `q` all run, the renames that revert them all run too, and they
/// restore every path.
pub proof fn lemma_round_trip(fs: Map<Seq<char>, int>, q: Seq<(Seq<char>, Seq<char>)>)
    requires
        run(fs, q) is Some,
    ensures
        run(run(fs, q)->0, undo(q)) == Some(fs),
    decreases q.len(),
{
    if q.len() > 0 {
        let st = q[0];
        let next = apply_step(fs, st)->0;
        let rest = q.drop_first();
        let end = run(fs, q)->0;
        let back = (st.1, st.0);
        assert(run(fs, q) == run(next, rest));
        lemma_round_trip(next, rest);
        assert(undo(q) =~= undo(rest) + seq![back]);
        lemma_run_append(end, undo(rest), seq![back]);
        assert(run(end, undo(rest)) == Some(next));
        assert(apply_step(next, back) == Some(fs)) by {
            assert(next.remove(st.1).insert(st.0, next[st.1]) =~= fs);
        }
        assert(seq![back].drop_first() =~= Seq::<(Seq<char>, Seq<char>)>::empty());
        assert(run(next, seq![back]) == run(fs, Seq::<(Seq<char>, Seq<char>)>::empty()));
    } else {
        assert(undo(q) =~= q);
    }
}

/// Reverting a queue whose first `c` renames ran performs the renames that
/// revert those, in order: after `k` of them, the next one is the `k`-th.
pub proof fn lemma_revert_order(q: Seq<(Seq<char>, Seq<char>)>, c: nat, k: nat)
    requires
        k < c <= q.len(),
    ensures
        next_of((q, (c - k) as nat), false) == Some(undo(q.take(c as int))[k as int]),
{
}

/// An atomic rename that fails after its first `c` renames rolls back by
/// performing the renames that revert them, in order; where those run, the
/// file system ends as it was before the attempt.
pub proof fn lemma_rollback_restores(fs: Map<Seq<char>, int>, q: Seq<(Seq<char>, Seq<char>)>, c: nat)
    requires
        c <= q.len(),
        run(fs, q.take(c as int)) is Some,
    ensures
        forall|k: nat| k < c ==> next_of((q, (c - k) as nat), false) == Some(
            #[trigger] undo(q.take(c as int))[k as int],
        ),
        run(run(fs, q.take(c as int))->0, undo(q.take(c as int))) == Some(fs),
{
    lemma_round_trip(fs, q.take(c as int));
}

/// A queue split at its cursor into the renames that ran and those to come
/// is put back together as it was, and applying it then performs the renames
/// to come, in their order.
pub proof fn lemma_resume(q: Seq<(Seq<char>, Seq<char>)>, c: nat)
    requires
        c <= q.len(),
    ensures
        q.take(c as int) + q.skip(c as int) == q,
        q.take(c as int).len() == c,
        forall|k: nat| k < q.len() - c ==> next_of((q, c + k), true) == Some(
            #[trigger] q.skip(c as int)[k as int],
        ),
        next_of((q, q.len()), true) is None,
{
    assert(q.take(c as int) + q.skip(c as int) =~= q);
}

/// A rename of a path to itself is no step of the queue: the queue of a
/// batch that passes the checks touches no path that the batch maps to
/// itself, and no step of it renames a path to itself.
pub proof fn lemma_no_op_untouched(
    p: Seq<(Seq<char>, Seq<char>)>,
    occupied: Seq<Seq<char>>,
    q: Seq<(Seq<char>, Seq<char>)>,
    a: Seq<char>,
)
    requires
        accepts(p),
        resolves(p, occupied, q),
        maps(p, a, a),
    ensures
        forall|k: int| 0 <= k < q.len() ==> #[trigger] q[k].0 != a && q[k].1 != a,
        forall|k: int| 0 <= k < q.len() ==> #[trigger] q[k].0 != q[k].1,
{
    assert forall|k: int| 0 <= k < q.len() implies #[trigger] q[k].0 != a && q[k].1 != a && q[k].0 != q[k].1 by {
        lemma_step_avoids(p, q, a, q[k]);
    }
}

proof fn lemma_step_avoids(
    p: Seq<(Seq<char>, Seq<char>)>,
    q: Seq<(Seq<char>, Seq<char>)>,
    a: Seq<char>,
    st: (Seq<char>, Seq<char>),
)
    requires
        !has_one_to_many(p),
        !has_many_to_one(p),
        maps(p, a, a),
        serves(p, q, st),
    ensures
        st.0 != a && st.1 != a && st.0 != st.1,
{
    let ia = choose|i: int| 0 <= i < p.len() && #[trigger] p[i] == (a, a);
    assert(p[ia].0 == a);
    assert(is_endpoint(p, a));
    if maps(p, st.0, st.1) && st.0 != st.1 {
        let i = choose|i: int| 0 <= i < p.len() && #[trigger] p[i] == (st.0, st.1);
        if st.0 == a {
            no_one_to_many(p, ia, i);
        }
        if st.1 == a {
            assert(p[i].1 == p[ia].1 && p[i].0 != p[ia].0);
        }
    } else if !is_endpoint(p, st.1) && exists|y: Seq<char>| maps(p, st.0, y) && st.0 != y && #[trigger] q.contains((st.1, y)) {
        let y = choose|y: Seq<char>| maps(p, st.0, y) && st.0 != y && #[trigger] q.contains((st.1, y));
        let i = choose|i: int| 0 <= i < p.len() && #[trigger] p[i] == (st.0, y);
        assert(p[i].0 == st.0);
        assert(is_endpoint(p, st.0));
        if st.0 == a {
            no_one_to_many(p, ia, i);
        }
    } else {
        let x = choose|x: Seq<char>| maps(p, x, st.1) && x != st.1 && #[trigger] q.contains((x, st.0));
        let i = choose|i: int| 0 <= i < p.len() && #[trigger] p[i] == (x, st.1);
        assert(p[i].1 == st.1);
        assert(is_endpoint(p, st.1));
        if st.1 == a {
            assert(p[i].1 == p[ia].1 && p[i].0 != p[ia].0);
        }
    }
}

/// The file system after the first `k` renames of `q`.
pub open spec fn state(fs: Map<Seq<char>, int>, q: Seq<(Seq<char>, Seq<char>)>, k: int) -> Option<
    Map<Seq<char>, int>,
> {
    run(fs, q.take(k))
}

/// Whether one of the first `k` renames of `q` moves `x` away.
pub open spec fn vacated_before(q: Seq<(Seq<char>, Seq<char>)>, x: Seq<char>, k: int) -> bool {
    exists|a: int| 0 <= a < k && #[trigger] q[a].0 == x
}

/// Whether one of the first `k` renames of `q` moves something to `x`.
pub open spec fn filled_before(q: Seq<(Seq<char>, Seq<char>)>, x: Seq<char>, k: int) -> bool {
    exists|b: int| 0 <= b < k && #[trigger] q[b].1 == x
}

/// Whether `x` exists after the first `k` renames of a resolved queue `q`
/// of the batch `p`, applied to `fs`: a path of the batch is vacated before
/// it is filled, a temporary path the other way round.
pub open spec fn present(
    p: Seq<(Seq<char>, Seq<char>)>,
    fs: Map<Seq<char>, int>,
    q: Seq<(Seq<char>, Seq<char>)>,
    x: Seq<char>,
    k: int,
) -> bool {
    if filled_before(q, x, k) {
        !(vacated_before(q, x, k) && !is_endpoint(p, x))
    } else {
        fs.contains_key(x) && !vacated_before(q, x, k)
    }
}

/// Whether `x` is the source of a pair of `p`.
pub open spec fn is_source(p: Seq<(Seq<char>, Seq<char>)>, x: Seq<char>) -> bool {
    exists|i: int| 0 <= i < p.len() && #[trigger] p[i].0 == x
}

/// The file systems on which the resolved queue of a batch can run: every
/// source of the batch exists, and every other path that exists is no path
/// of the batch and is among the paths known to exist.
pub open spec fn ready(
    p: Seq<(Seq<char>, Seq<char>)>,
    occupied: Seq<Seq<char>>,
    fs: Map<Seq<char>, int>,
) -> bool {
    &&& forall|i: int| 0 <= i < p.len() ==> fs.contains_key(#[trigger] p[i].0)
    &&& forall|x: Seq<char>|
        #[trigger] fs.contains_key(x) ==> is_source(p, x) || (!is_endpoint(p, x)
            && occupied.contains(x))
}

proof fn lemma_state_next(fs: Map<Seq<char>, int>, q: Seq<(Seq<char>, Seq<char>)>, k: int)
    requires
        0 <= k < q.len(),
    ensures
        state(fs, q, k + 1) == match state(fs, q, k) {
            Some(f) => apply_step(f, q[k]),
            None => None,
        },
{
    assert(q.take(k + 1) =~= q.take(k) + seq![q[k]]);
    lemma_run_append(fs, q.take(k), seq![q[k]]);
    if let Some(f) = state(fs, q, k) {
        assert(seq![q[k]].drop_first() =~= Seq::<(Seq<char>, Seq<char>)>::empty());
        if let Some(n) = apply_step(f, q[k]) {
            assert(run(f, seq![q[k]]) == run(n, Seq::<(Seq<char>, Seq<char>)>::empty()));
        }
    }
}

/// What the first `k` renames of a resolved queue do: each of them can run,
/// a path exists exactly where `present` says, a path that nothing has
/// filled yet keeps what it held, and a filled path keeps what it was
/// filled with.
proof fn lemma_prefix(
    p: Seq<(Seq<char>, Seq<char>)>,
    occupied: Seq<Seq<char>>,
    q: Seq<(Seq<char>, Seq<char>)>,
    fs: Map<Seq<char>, int>,
    k: int,
)
    requires
        accepts(p),
        resolves(p, occupied, q),
        ready(p, occupied, fs),
        0 <= k <= q.len(),
    ensures
        state(fs, q, k) is Some,
        forall|x: Seq<char>| #[trigger] state(fs, q, k)->0.contains_key(x) == present(p, fs, q, x, k),
        forall|x: Seq<char>|
            state(fs, q, k)->0.contains_key(x) && !filled_before(q, x, k) ==> #[trigger] state(
                fs,
                q,
                k,
            )->0[x] == fs[x],
        forall|b: int|
            0 <= b < k && state(fs, q, k)->0.contains_key(#[trigger] q[b].1) ==> state(
                fs,
                q,
                k,
            )->0[q[b].1] == state(fs, q, b + 1)->0[q[b].1],
    decreases k,
{
    if k == 0 {
        assert(q.take(0) =~= Seq::<(Seq<char>, Seq<char>)>::empty());
        return;
    }
    let j = k - 1;
    lemma_prefix(p, occupied, q, fs, j);
    lemma_state_next(fs, q, j);
    let f = state(fs, q, j)->0;
    let st = q[j];
    assert(serves(p, q, st));
    // The source of the step exists.
    assert(f.contains_key(st.0)) by {
        assert(!vacated_before(q, st.0, j)) by {
            if vacated_before(q, st.0, j) {
                let a = choose|a: int| 0 <= a < j && #[trigger] q[a].0 == st.0;
                assert(q[a].0 != q[j].0);
            }
        }
        if is_endpoint(p, st.0) {
            assert(is_source(p, st.0)) by {
                if maps(p, st.0, st.1) && st.0 != st.1 {
                    let i = choose|i: int| 0 <= i < p.len() && #[trigger] p[i] == (st.0, st.1);
                    assert(p[i].0 == st.0);
                } else if !is_endpoint(p, st.1) && exists|y: Seq<char>| maps(p, st.0, y) && st.0 != y && #[trigger] q.contains((st.1, y)) {
                    let y = choose|y: Seq<char>| maps(p, st.0, y) && st.0 != y && #[trigger] q.contains((st.1, y));
                    let i = choose|i: int| 0 <= i < p.len() && #[trigger] p[i] == (st.0, y);
                    assert(p[i].0 == st.0);
                }
            }
            let i = choose|i: int| 0 <= i < p.len() && #[trigger] p[i].0 == st.0;
            assert(fs.contains_key(p[i].0));
            if filled_before(q, st.0, j) {
                let b = choose|b: int| 0 <= b < j && #[trigger] q[b].1 == st.0;
                assert(q[j].0 == q[b].1);
            }
        } else {
            if maps(p, st.0, st.1) {
                let i = choose|i: int| 0 <= i < p.len() && #[trigger] p[i] == (st.0, st.1);
                assert(p[i].0 == st.0);
            }
            if exists|y: Seq<char>| maps(p, st.0, y) && st.0 != y && #[trigger] q.contains((st.1, y)) {
                let y = choose|y: Seq<char>| maps(p, st.0, y) && st.0 != y && #[trigger] q.contains((st.1, y));
                let i = choose|i: int| 0 <= i < p.len() && #[trigger] p[i] == (st.0, y);
                assert(p[i].0 == st.0);
            }
            let x = choose|x: Seq<char>| maps(p, x, st.1) && x != st.1 && #[trigger] q.contains((x, st.0));
            let b = choose|b: int| 0 <= b < q.len() && q[b] == (x, st.0);
            assert(q[j].0 == q[b].1);
            assert(filled_before(q, st.0, j));
        }
    }
    // The destination of the step is free.
    assert(!f.contains_key(st.1)) by {
        assert(!filled_before(q, st.1, j)) by {
            if filled_before(q, st.1, j) {
                let b = choose|b: int| 0 <= b < j && #[trigger] q[b].1 == st.1;
                assert(q[b].1 != q[j].1);
            }
        }
        if f.contains_key(st.1) {
            assert(fs.contains_key(st.1));
            if is_source(p, st.1) {
                let i = choose|i: int| 0 <= i < p.len() && #[trigger] p[i].0 == st.1;
                let y = p[i].1;
                if y == st.1 {
                    assert(maps(p, st.1, st.1));
                    lemma_step_avoids(p, q, st.1, st);
                } else {
                    assert(is_endpoint(p, st.1));
                    assert(resolves(p, occupied, q));
                    assert(exists|a: int| 0 <= a < q.len() && q[a].0 == st.1) by {
                        let r = crate::resolve::routes(p, q, st.1, y);
                        assert(maps(p, st.1, y));
                        assert(p[i].0 != p[i].1);
                        assert(crate::resolve::routes(p, q, p[i].0, p[i].1));
                        if q.contains((st.1, y)) {
                            let a = choose|a: int| 0 <= a < q.len() && q[a] == (st.1, y);
                            assert(q[a].0 == st.1);
                        } else {
                            let t = choose|t: Seq<char>| !is_endpoint(p, t) && #[trigger] q.contains((st.1, t)) && #[trigger] q.contains((t, y));
                            let a = choose|a: int| 0 <= a < q.len() && q[a] == (st.1, t);
                            assert(q[a].0 == st.1);
                        }
                    }
                    let a = choose|a: int| 0 <= a < q.len() && q[a].0 == st.1;
                    assert(q[a].0 == q[j].1);
                    assert(vacated_before(q, st.1, j));
                }
            } else {
                assert(!is_endpoint(p, st.1) && occupied.contains(st.1));
            }
        }
    }
}

/// What lay at the source `s` before the renames, where the `a`-th rename
/// of `q` moves it on: it lies at the rename's destination afterwards.
proof fn lemma_source_moves(
    p: Seq<(Seq<char>, Seq<char>)>,
    occupied: Seq<Seq<char>>,
    q: Seq<(Seq<char>, Seq<char>)>,
    fs: Map<Seq<char>, int>,
    a: int,
)
    requires
        accepts(p),
        resolves(p, occupied, q),
        ready(p, occupied, fs),
        0 <= a < q.len(),
        is_endpoint(p, q[a].0),
    ensures
        state(fs, q, a + 1)->0.contains_key(q[a].1),
        state(fs, q, a + 1)->0[q[a].1] == fs[q[a].0],
{
    lemma_prefix(p, occupied, q, fs, a);
    lemma_prefix(p, occupied, q, fs, a + 1);
    lemma_state_next(fs, q, a);
    let x = q[a].0;
    if filled_before(q, x, a) {
        let b = choose|b: int| 0 <= b < a && #[trigger] q[b].1 == x;
        assert(q[a].0 == q[b].1);
    }
}

/// What lies at the destination of the `a`-th rename of `q` right after it
/// stays there to the end, where that destination is a path of the batch.
proof fn lemma_stays(
    p: Seq<(Seq<char>, Seq<char>)>,
    occupied: Seq<Seq<char>>,
    q: Seq<(Seq<char>, Seq<char>)>,
    fs: Map<Seq<char>, int>,
    a: int,
)
    requires
        accepts(p),
        resolves(p, occupied, q),
        ready(p, occupied, fs),
        0 <= a < q.len(),
        is_endpoint(p, q[a].1),
    ensures
        state(fs, q, q.len() as int)->0.contains_key(q[a].1),
        state(fs, q, q.len() as int)->0[q[a].1] == state(fs, q, a + 1)->0[q[a].1],
{
    lemma_prefix(p, occupied, q, fs, q.len() as int);
    assert(filled_before(q, q[a].1, q.len() as int));
}

/// Applying the resolved queue of a batch to a file system on which it can
/// run performs every rename: what lay at the source of each pair then lies
/// at its destination, and a path that the batch does not rename keeps what
/// it held.
pub proof fn lemma_apply_moves(
    p: Seq<(Seq<char>, Seq<char>)>,
    occupied: Seq<Seq<char>>,
    q: Seq<(Seq<char>, Seq<char>)>,
    fs: Map<Seq<char>, int>,
)
    requires
        accepts(p),
        resolves(p, occupied, q),
        ready(p, occupied, fs),
    ensures
        run(fs, q) is Some,
        forall|i: int|
            0 <= i < p.len() && #[trigger] p[i].0 != p[i].1 ==> run(fs, q)->0.contains_key(p[i].1)
                && run(fs, q)->0[p[i].1] == fs[p[i].0],
        forall|x: Seq<char>|
            #[trigger] fs.contains_key(x) && !is_endpoint(p, x) ==> run(fs, q)->0.contains_key(x)
                && run(fs, q)->0[x] == fs[x],
{
    let n = q.len() as int;
    assert(q.take(n) =~= q);
    lemma_prefix(p, occupied, q, fs, n);
    let end = state(fs, q, n)->0;
    assert forall|i: int| 0 <= i < p.len() && #[trigger] p[i].0 != p[i].1 implies end.contains_key(p[i].1) && end[p[i].1] == fs[p[i].0] by {
        let (s, d) = p[i];
        assert(routes(p, q, s, d));
        assert(is_endpoint(p, s) && is_endpoint(p, d));
        if q.contains((s, d)) {
            let a = choose|a: int| 0 <= a < q.len() && q[a] == (s, d);
            lemma_source_moves(p, occupied, q, fs, a);
            lemma_stays(p, occupied, q, fs, a);
        } else {
            let t = choose|t: Seq<char>| !is_endpoint(p, t) && #[trigger] q.contains((s, t)) && #[trigger] q.contains((t, d));
            let a1 = choose|a: int| 0 <= a < q.len() && q[a] == (s, t);
            let a2 = choose|a: int| 0 <= a < q.len() && q[a] == (t, d);
            assert(q[a2].0 == q[a1].1);
            lemma_source_moves(p, occupied, q, fs, a1);
            lemma_prefix(p, occupied, q, fs, a2);
            lemma_prefix(p, occupied, q, fs, a2 + 1);
            lemma_state_next(fs, q, a2);
            lemma_stays(p, occupied, q, fs, a2);
        }
    }
    assert forall|x: Seq<char>| #[trigger] fs.contains_key(x) && !is_endpoint(p, x) implies end.contains_key(x) && end[x] == fs[x] by {
        assert(occupied.contains(x));
        if filled_before(q, x, n) {
            let b = choose|b: int| 0 <= b < n && #[trigger] q[b].1 == x;
        }
        if vacated_before(q, x, n) {
            let a = choose|a: int| 0 <= a < n && #[trigger] q[a].0 == x;
            assert(serves(p, q, q[a]));
            if maps(p, x, q[a].1) {
                let i = choose|i: int| 0 <= i < p.len() && #[trigger] p[i] == (x, q[a].1);
                assert(p[i].0 == x);
            }
            if exists|y: Seq<char>| maps(p, x, y) && x != y && #[trigger] q.contains((q[a].1, y)) {
                let y = choose|y: Seq<char>| maps(p, x, y) && x != y && #[trigger] q.contains((q[a].1, y));
                let i = choose|i: int| 0 <= i < p.len() && #[trigger] p[i] == (x, y);
                assert(p[i].0 == x);
            }
            let w = choose|w: Seq<char>| maps(p, w, q[a].1) && w != q[a].1 && #[trigger] q.contains((w, x));
            let b = choose|b: int| 0 <= b < q.len() && q[b] == (w, x);
            assert(q[b].1 == x);
        }
    }
}

proof fn no_one_to_many(p: Seq<(Seq<char>, Seq<char>)>, i: int, j: int)
    requires
        !has_one_to_many(p),
        0 <= i < p.len(),
        0 <= j < p.len(),
        p[i].0 == p[j].0,
    ensures
        p[i].1 == p[j].1,
{
    if i < j {
        assert(!(p[i].0 == p[j].0 && p[i].1 != p[j].1));
    } else if j < i {
        assert(!(p[j].0 == p[i].0 && p[j].1 != p[i].1));
    }
}

} // verus!
