//! Paths as text: the order in which a batch of paths is sorted, the
//! ancestor relation between two paths, and the names of temporary paths.
use vstd::prelude::*;

verus! {

/// The position of a character in the order in which paths are sorted. The
/// separator comes before every other character, so that a directory sorts
/// right before the paths nested under it.
pub open spec fn rank(c: char) -> int {
    if c == '/' {
        0
    } else {
        (c as u32) as int + 1
    }
}

/// Whether `a` sorts before `b` or equals it. Paths are compared character by
/// character by `rank`, and a path sorts before every path that extends it.
pub open spec fn path_le(a: Seq<char>, b: Seq<char>) -> bool
    decreases a.len(),
{
    if a.len() == 0 {
        true
    } else if b.len() == 0 {
        false
    } else if a[0] != b[0] {
        rank(a[0]) < rank(b[0])
    } else {
        path_le(a.drop_first(), b.drop_first())
    }
}

/// Whether `q` begins with `p`.
pub open spec fn has_prefix(q: Seq<char>, p: Seq<char>) -> bool {
    p.len() <= q.len() && q.subrange(0, p.len() as int) == p
}

/// Whether `p` is a directory that holds `q`, at any depth: `q` extends `p`
/// by at least one component.
pub open spec fn is_ancestor(p: Seq<char>, q: Seq<char>) -> bool {
    &&& p.len() < q.len()
    &&& has_prefix(q, p)
    &&& (q[p.len() as int] == '/' || (p.len() > 0 && p[p.len() - 1] == '/'))
}

proof fn lemma_rank_injective(a: char, b: char)
    requires
        rank(a) == rank(b),
    ensures
        a == b,
{
    if a != '/' && b != '/' {
        assert((a as u32) == (b as u32));
    }
}

/// Any two paths are ordered one way or the other.
pub proof fn lemma_le_total(a: Seq<char>, b: Seq<char>)
    ensures
        path_le(a, b) || path_le(b, a),
    decreases a.len(),
{
    if a.len() > 0 && b.len() > 0 {
        if a[0] == b[0] {
            lemma_le_total(a.drop_first(), b.drop_first());
        } else if rank(a[0]) == rank(b[0]) {
            lemma_rank_injective(a[0], b[0]);
        }
    }
}

/// Two paths that sort before each other are equal.
pub proof fn lemma_le_antisymmetric(a: Seq<char>, b: Seq<char>)
    requires
        path_le(a, b),
        path_le(b, a),
    ensures
        a == b,
    decreases a.len(),
{
    if a.len() == 0 {
        assert(b.len() == 0);
        assert(a =~= b);
    } else {
        if a[0] != b[0] {
            assert(false);
        }
        lemma_le_antisymmetric(a.drop_first(), b.drop_first());
        assert(a =~= seq![a[0]] + a.drop_first());
        assert(b =~= seq![b[0]] + b.drop_first());
    }
}

/// The order is transitive.
pub proof fn lemma_le_transitive(a: Seq<char>, b: Seq<char>, c: Seq<char>)
    requires
        path_le(a, b),
        path_le(b, c),
    ensures
        path_le(a, c),
    decreases a.len(),
{
    if a.len() > 0 && b.len() > 0 && c.len() > 0 {
        if a[0] == b[0] && b[0] == c[0] {
            lemma_le_transitive(a.drop_first(), b.drop_first(), c.drop_first());
        } else if a[0] == c[0] && a[0] != b[0] {
            assert(rank(a[0]) < rank(b[0]) && rank(b[0]) < rank(c[0]));
        }
    }
}

/// A path sorts before the paths that extend it.
pub proof fn lemma_prefix_le(p: Seq<char>, q: Seq<char>)
    requires
        has_prefix(q, p),
    ensures
        path_le(p, q),
    decreases p.len(),
{
    if p.len() > 0 {
        assert(p[0] == q.subrange(0, p.len() as int)[0]);
        assert(q.drop_first().subrange(0, p.len() - 1) =~= p.drop_first()) by {
            assert(p.drop_first() =~= q.subrange(0, p.len() as int).drop_first());
        }
        lemma_prefix_le(p.drop_first(), q.drop_first());
    }
}

/// Comparing two paths that share their first `k` characters is comparing
/// what follows.
pub proof fn lemma_le_skip(a: Seq<char>, b: Seq<char>, k: int)
    requires
        0 <= k <= a.len(),
        k <= b.len(),
        a.subrange(0, k) == b.subrange(0, k),
    ensures
        path_le(a, b) == path_le(a.subrange(k, a.len() as int), b.subrange(k, b.len() as int)),
    decreases k,
{
    if k == 0 {
        assert(a.subrange(0, a.len() as int) =~= a);
        assert(b.subrange(0, b.len() as int) =~= b);
    } else {
        assert(a[0] == a.subrange(0, k)[0]);
        assert(b[0] == b.subrange(0, k)[0]);
        assert(a.drop_first().subrange(0, k - 1) =~= b.drop_first().subrange(0, k - 1)) by {
            assert(a.drop_first().subrange(0, k - 1) =~= a.subrange(0, k).drop_first());
            assert(b.drop_first().subrange(0, k - 1) =~= b.subrange(0, k).drop_first());
        }
        lemma_le_skip(a.drop_first(), b.drop_first(), k - 1);
        assert(a.drop_first().subrange(k - 1, a.len() - 1) =~= a.subrange(k, a.len() as int));
        assert(b.drop_first().subrange(k - 1, b.len() - 1) =~= b.subrange(k, b.len() as int));
    }
}

/// A path that sorts between `p` and a path extending `p` extends `p` too.
proof fn lemma_between_keeps_prefix(p: Seq<char>, q: Seq<char>, r: Seq<char>)
    requires
        has_prefix(q, p),
        path_le(p, r),
        path_le(r, q),
    ensures
        has_prefix(r, p),
    decreases p.len(),
{
    if p.len() > 0 {
        assert(p[0] == q.subrange(0, p.len() as int)[0]);
        assert(r.len() > 0);
        if r[0] != p[0] {
            assert(false);
        }
        assert(q.drop_first().subrange(0, p.len() - 1) =~= p.drop_first()) by {
            assert(p.drop_first() =~= q.subrange(0, p.len() as int).drop_first());
        }
        lemma_between_keeps_prefix(p.drop_first(), q.drop_first(), r.drop_first());
        assert(r.subrange(0, p.len() as int) =~= p) by {
            assert(r.subrange(0, p.len() as int) =~= seq![r[0]] + r.drop_first().subrange(
                0,
                p.len() - 1,
            ));
            assert(p =~= seq![p[0]] + p.drop_first());
        }
    } else {
        assert(r.subrange(0, 0) =~= p);
    }
}

/// An ancestor sorts before its descendants.
pub proof fn lemma_ancestor_le(p: Seq<char>, q: Seq<char>)
    requires
        is_ancestor(p, q),
    ensures
        path_le(p, q),
        p != q,
{
    lemma_prefix_le(p, q);
}

/// Every path that sorts strictly between a directory and one of its
/// descendants is a descendant of that directory as well. So in a sorted
/// list, a directory is directly followed by a descendant whenever the list
/// holds any of them.
pub proof fn lemma_between_is_descendant(p: Seq<char>, q: Seq<char>, r: Seq<char>)
    requires
        is_ancestor(p, q),
        path_le(p, r),
        path_le(r, q),
        r != p,
    ensures
        is_ancestor(p, r),
{
    lemma_between_keeps_prefix(p, q, r);
    let k = p.len() as int;
    if r.len() == p.len() {
        assert(r =~= r.subrange(0, k));
    }
    assert(r.len() > p.len());
    if !(p.len() > 0 && p[p.len() - 1] == '/') {
        assert(q[k] == '/');
        assert(r.subrange(0, k) == q.subrange(0, k));
        lemma_le_skip(r, q, k);
        let rs = r.subrange(k, r.len() as int);
        let qs = q.subrange(k, q.len() as int);
        assert(rs[0] == r[k]);
        assert(qs[0] == q[k]);
        if r[k] != '/' {
            assert(rank(rs[0]) > rank(qs[0]));
            assert(!path_le(rs, qs));
        }
    }
}

/// The length of `p` once the separators that end it are taken off (a
/// lone separator stays).
pub open spec fn trim_end(p: Seq<char>) -> Seq<char>
    decreases p.len(),
{
    if p.len() > 1 && p.last() == '/' {
        trim_end(p.drop_last())
    } else {
        p
    }
}

/// The index at which the last component of `p` starts: right after its last
/// separator.
pub open spec fn name_start(p: Seq<char>) -> int
    decreases p.len(),
{
    if p.len() == 0 {
        0
    } else if p.last() == '/' {
        p.len() as int
    } else {
        name_start(p.drop_last())
    }
}

/// The index of the last dot in the last component of `p`, or -1 where that
/// component holds none.
pub open spec fn last_dot(p: Seq<char>) -> int
    decreases p.len(),
{
    if p.len() == 0 || p.last() == '/' {
        -1
    } else if p.last() == '.' {
        p.len() - 1
    } else {
        last_dot(p.drop_last())
    }
}

/// `p` without trailing separators and without the extension of its last
/// component. A dot that opens the component starts no extension.
pub open spec fn stem(p: Seq<char>) -> Seq<char> {
    let t = trim_end(p);
    if last_dot(t) > name_start(t) {
        t.subrange(0, last_dot(t))
    } else {
        t
    }
}

/// The character of the decimal digit `d`.
pub open spec fn digit(d: nat) -> char {
    if d == 0 {
        '0'
    } else if d == 1 {
        '1'
    } else if d == 2 {
        '2'
    } else if d == 3 {
        '3'
    } else if d == 4 {
        '4'
    } else if d == 5 {
        '5'
    } else if d == 6 {
        '6'
    } else if d == 7 {
        '7'
    } else if d == 8 {
        '8'
    } else {
        '9'
    }
}

/// The value of the decimal digit `c`.
pub open spec fn digit_value(c: char) -> nat {
    if c == '1' {
        1
    } else if c == '2' {
        2
    } else if c == '3' {
        3
    } else if c == '4' {
        4
    } else if c == '5' {
        5
    } else if c == '6' {
        6
    } else if c == '7' {
        7
    } else if c == '8' {
        8
    } else if c == '9' {
        9
    } else {
        0
    }
}

/// `n` written in decimal, without leading zeros.
pub open spec fn decimal(n: nat) -> Seq<char>
    decreases n,
{
    if n < 10 {
        seq![digit(n)]
    } else {
        decimal(n / 10).push(digit(n % 10))
    }
}

/// The number that the decimal digits `s` stand for.
pub open spec fn decimal_value(s: Seq<char>) -> nat
    decreases s.len(),
{
    if s.len() == 0 {
        0
    } else {
        decimal_value(s.drop_last()) * 10 + digit_value(s.last())
    }
}

/// The `i`-th candidate name for a temporary path next to `p`: the extension
/// of `p` is replaced by `temp_` and the number `i`.
pub open spec fn temp_path(p: Seq<char>, i: nat) -> Seq<char> {
    stem(p) + seq!['.', 't', 'e', 'm', 'p', '_'] + decimal(i)
}

proof fn lemma_digit_value(d: nat)
    requires
        d < 10,
    ensures
        digit_value(digit(d)) == d,
{
    assert(d == 0 || d == 1 || d == 2 || d == 3 || d == 4 || d == 5 || d == 6 || d == 7 || d
        == 8 || d == 9);
}

proof fn lemma_decimal_value(n: nat)
    ensures
        decimal_value(decimal(n)) == n,
    decreases n,
{
    if n >= 10 {
        lemma_decimal_value(n / 10);
        lemma_digit_value(n % 10);
        let d = decimal(n);
        assert(d.drop_last() =~= decimal(n / 10));
        assert(d.last() == digit(n % 10));
        assert(decimal_value(d) == decimal_value(d.drop_last()) * 10 + digit_value(d.last()));
        assert(n == (n / 10) * 10 + n % 10) by (nonlinear_arith);
        assert(decimal_value(d) == n);
    } else {
        lemma_digit_value(n);
        let d = seq![digit(n)];
        assert(d.drop_last() =~= Seq::<char>::empty());
        assert(decimal_value(d.drop_last()) == 0);
        assert(decimal_value(d) == decimal_value(d.drop_last()) * 10 + digit_value(d.last()));
    }
}

/// Distinct numbers give distinct candidate names.
pub proof fn lemma_temp_path_injective(p: Seq<char>, i: nat, j: nat)
    requires
        temp_path(p, i) == temp_path(p, j),
    ensures
        i == j,
{
    let a = stem(p) + seq!['.', 't', 'e', 'm', 'p', '_'];
    let x = temp_path(p, i);
    assert(x.subrange(a.len() as int, x.len() as int) =~= decimal(i));
    assert(x.subrange(a.len() as int, x.len() as int) =~= decimal(j));
    lemma_decimal_value(i);
    lemma_decimal_value(j);
}

/// Relies on `String::push`: appends one character.
#[verifier::external_body]
pub(crate) fn push_char(s: &mut String, c: char)
    ensures
        final(s)@ == old(s)@.push(c),
{
    s.push(c);
}

/// The text made of the characters `v`.
pub fn string_of(v: &Vec<char>) -> (s: String)
    ensures
        s@ == v@,
{
    let mut s = String::new();
    let mut i: usize = 0;
    while i < v.len()
        invariant
            i <= v.len(),
            s@ == v@.subrange(0, i as int),
        decreases v.len() - i,
    {
        push_char(&mut s, v[i]);
        i += 1;
        assert(s@ =~= v@.subrange(0, i as int));
    }
    assert(v@.subrange(0, v.len() as int) =~= v@);
    s
}

/// The characters of `s`.
pub fn chars_of(s: &str) -> (v: Vec<char>)
    ensures
        v@ == s@,
{
    let mut v: Vec<char> = Vec::new();
    for c in it: s.chars()
        invariant
            v@ == it.seq().take(it.index() as int),
    {
        v.push(c);
    }
    v
}

/// Whether `a` sorts before `b` or equals it.
pub fn sorts_before(a: &Vec<char>, b: &Vec<char>) -> (r: bool)
    ensures
        r == path_le(a@, b@),
{
    let mut i: usize = 0;
    while i < a.len() && i < b.len() && a[i] == b[i]
        invariant
            i <= a.len(),
            i <= b.len(),
            a@.subrange(0, i as int) == b@.subrange(0, i as int),
        decreases a.len() - i,
    {
        i += 1;
        assert(a@.subrange(0, i as int) =~= b@.subrange(0, i as int)) by {
            assert(a@.subrange(0, i as int) =~= a@.subrange(0, i - 1).push(a@[i - 1]));
            assert(b@.subrange(0, i as int) =~= b@.subrange(0, i - 1).push(b@[i - 1]));
        }
    }
    proof {
        lemma_le_skip(a@, b@, i as int);
    }
    let ghost rest_a = a@.subrange(i as int, a.len() as int);
    let ghost rest_b = b@.subrange(i as int, b.len() as int);
    if i == a.len() {
        assert(rest_a.len() == 0);
        true
    } else if i == b.len() {
        assert(rest_b.len() == 0);
        false
    } else {
        assert(rest_a[0] == a@[i as int] && rest_b[0] == b@[i as int]);
        if a[i] == '/' {
            true
        } else if b[i] == '/' {
            false
        } else {
            (a[i] as u32) < (b[i] as u32)
        }
    }
}

/// Whether `p` is a directory that holds `q`.
pub fn is_ancestor_of(p: &Vec<char>, q: &Vec<char>) -> (r: bool)
    ensures
        r == is_ancestor(p@, q@),
{
    if p.len() >= q.len() {
        return false;
    }
    let mut i: usize = 0;
    while i < p.len()
        invariant
            i <= p.len() < q.len(),
            q@.subrange(0, i as int) == p@.subrange(0, i as int),
        decreases p.len() - i,
    {
        if q[i] != p[i] {
            assert(q@.subrange(0, p.len() as int)[i as int] == q@[i as int]);
            return false;
        }
        i += 1;
        assert(q@.subrange(0, i as int) =~= p@.subrange(0, i as int)) by {
            assert(q@.subrange(0, i as int) =~= q@.subrange(0, i - 1).push(q@[i - 1]));
            assert(p@.subrange(0, i as int) =~= p@.subrange(0, i - 1).push(p@[i - 1]));
        }
    }
    assert(p@.subrange(0, p.len() as int) =~= p@);
    q[p.len()] == '/' || (p.len() > 0 && p[p.len() - 1] == '/')
}

/// The length of `p` once the separators that end it are taken off.
fn trimmed_len(p: &Vec<char>) -> (e: usize)
    ensures
        e <= p.len(),
        trim_end(p@) == p@.subrange(0, e as int),
{
    let mut e = p.len();
    assert(p@.subrange(0, e as int) =~= p@);
    while e > 1 && p[e - 1] == '/'
        invariant
            e <= p.len(),
            trim_end(p@) == trim_end(p@.subrange(0, e as int)),
        decreases e,
    {
        assert(p@.subrange(0, e as int).drop_last() =~= p@.subrange(0, e - 1));
        e -= 1;
    }
    e
}

/// The index at which the last component of `p[..e]` starts.
fn name_start_of(p: &Vec<char>, e: usize) -> (k: usize)
    requires
        e <= p.len(),
    ensures
        k == name_start(p@.subrange(0, e as int)),
{
    let mut k = e;
    while k > 0 && p[k - 1] != '/'
        invariant
            k <= e <= p.len(),
            name_start(p@.subrange(0, e as int)) == name_start(p@.subrange(0, k as int)),
        decreases k,
    {
        assert(p@.subrange(0, k as int).drop_last() =~= p@.subrange(0, k - 1));
        k -= 1;
    }
    k
}

/// The index of the last dot in the last component of `p[..e]`.
fn last_dot_of(p: &Vec<char>, e: usize) -> (d: Option<usize>)
    requires
        e <= p.len(),
    ensures
        d is Some ==> last_dot(p@.subrange(0, e as int)) == d->0 && d->0 < e,
        d is None ==> last_dot(p@.subrange(0, e as int)) == -1,
{
    let mut k = e;
    while k > 0 && p[k - 1] != '/' && p[k - 1] != '.'
        invariant
            k <= e <= p.len(),
            last_dot(p@.subrange(0, e as int)) == last_dot(p@.subrange(0, k as int)),
        decreases k,
    {
        assert(p@.subrange(0, k as int).drop_last() =~= p@.subrange(0, k - 1));
        k -= 1;
    }
    if k > 0 && p[k - 1] == '.' {
        Some(k - 1)
    } else {
        None
    }
}

fn digit_char(d: usize) -> (c: char)
    requires
        d < 10,
    ensures
        c == digit(d as nat),
{
    if d == 0 {
        '0'
    } else if d == 1 {
        '1'
    } else if d == 2 {
        '2'
    } else if d == 3 {
        '3'
    } else if d == 4 {
        '4'
    } else if d == 5 {
        '5'
    } else if d == 6 {
        '6'
    } else if d == 7 {
        '7'
    } else if d == 8 {
        '8'
    } else {
        '9'
    }
}

fn push_decimal(v: &mut Vec<char>, n: usize)
    ensures
        final(v)@ == old(v)@ + decimal(n as nat),
    decreases n,
{
    if n >= 10 {
        push_decimal(v, n / 10);
    }
    v.push(digit_char(n % 10));
    assert(final(v)@ =~= old(v)@ + decimal(n as nat));
}

/// The `i`-th candidate name for a temporary path next to `p`.
pub fn temp_candidate(p: &Vec<char>, i: usize) -> (r: Vec<char>)
    ensures
        r@ == temp_path(p@, i as nat),
{
    let e = trimmed_len(p);
    let start = name_start_of(p, e);
    let end = match last_dot_of(p, e) {
        Some(d) => if d > start {
            d
        } else {
            e
        },
        None => e,
    };
    let mut r: Vec<char> = Vec::new();
    let mut k: usize = 0;
    while k < end
        invariant
            end <= e <= p.len(),
            k <= end,
            r@ == p@.subrange(0, k as int),
        decreases end - k,
    {
        r.push(p[k]);
        k += 1;
        assert(r@ =~= p@.subrange(0, k as int));
    }
    assert(r@ =~= stem(p@)) by {
        let t = p@.subrange(0, e as int);
        assert(t.subrange(0, end as int) =~= p@.subrange(0, end as int));
        assert(t.subrange(0, t.len() as int) =~= t);
    }
    r.push('.');
    r.push('t');
    r.push('e');
    r.push('m');
    r.push('p');
    r.push('_');
    push_decimal(&mut r, i);
    assert(r@ =~= temp_path(p@, i as nat));
    r
}

} // verus!
