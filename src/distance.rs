use vstd::prelude::*;

verus! {

/// Levenshtein edit distance between two character sequences, with unit cost
/// for inserting, deleting or substituting one character.
pub open spec fn lev(a: Seq<char>, b: Seq<char>) -> nat
    decreases a.len() + b.len(),
{
    if a.len() == 0 {
        b.len()
    } else if b.len() == 0 {
        a.len()
    } else {
        let del = lev(a.drop_last(), b) + 1;
        let ins = lev(a, b.drop_last()) + 1;
        let sub = lev(a.drop_last(), b.drop_last()) + if a.last() == b.last() {
            0nat
        } else {
            1nat
        };
        min3(del, ins, sub)
    }
}

pub open spec fn min3(x: nat, y: nat, z: nat) -> nat {
    if x <= y && x <= z {
        x
    } else if y <= z {
        y
    } else {
        z
    }
}

pub open spec fn max_len(a: Seq<char>, b: Seq<char>) -> nat {
    if a.len() >= b.len() {
        a.len()
    } else {
        b.len()
    }
}

/// The distance never exceeds the longer length, and is at least the
/// difference of the lengths.
pub proof fn lemma_lev_bounds(a: Seq<char>, b: Seq<char>)
    ensures
        lev(a, b) <= max_len(a, b),
        lev(a, b) >= a.len() - b.len(),
        lev(a, b) >= b.len() - a.len(),
    decreases a.len() + b.len(),
{
    if a.len() > 0 && b.len() > 0 {
        lemma_lev_bounds(a.drop_last(), b);
        lemma_lev_bounds(a, b.drop_last());
        lemma_lev_bounds(a.drop_last(), b.drop_last());
    }
}

/// A sequence is at distance zero from itself, and only from itself.
pub proof fn lemma_lev_zero(a: Seq<char>, b: Seq<char>)
    ensures
        lev(a, b) == 0 <==> a == b,
    decreases a.len() + b.len(),
{
    if a.len() > 0 && b.len() > 0 {
        lemma_lev_zero(a.drop_last(), b.drop_last());
        if a == b {
            assert(a.drop_last() == b.drop_last());
        }
        if lev(a, b) == 0 {
            assert(a =~= a.drop_last().push(a.last()));
            assert(b =~= b.drop_last().push(b.last()));
        }
    } else if a.len() == 0 && b.len() == 0 {
        assert(a =~= b);
    }
}

/// The distance does not depend on the order of its arguments.
pub proof fn lemma_lev_symmetric(a: Seq<char>, b: Seq<char>)
    ensures
        lev(a, b) == lev(b, a),
    decreases a.len() + b.len(),
{
    if a.len() > 0 && b.len() > 0 {
        lemma_lev_symmetric(a.drop_last(), b);
        lemma_lev_symmetric(a, b.drop_last());
        lemma_lev_symmetric(a.drop_last(), b.drop_last());
    }
}

/// The distance obeys the triangle inequality.
pub proof fn lemma_lev_triangle(a: Seq<char>, b: Seq<char>, c: Seq<char>)
    ensures
        lev(a, c) <= lev(a, b) + lev(b, c),
    decreases a.len() + b.len() + c.len(),
{
    if a.len() == 0 || c.len() == 0 {
        lemma_lev_bounds(a, b);
        lemma_lev_bounds(b, c);
    } else if b.len() == 0 {
        lemma_lev_bounds(a, c);
    } else {
        let a1 = a.drop_last();
        let b1 = b.drop_last();
        let c1 = c.drop_last();
        let ab_del = lev(a1, b) + 1;
        let ab_ins = lev(a, b1) + 1;
        let bc_del = lev(b1, c) + 1;
        let bc_ins = lev(b, c1) + 1;
        if lev(a, b) == ab_del {
            lemma_lev_triangle(a1, b, c);
        } else if lev(b, c) == bc_ins {
            lemma_lev_triangle(a, b, c1);
        } else if lev(a, b) == ab_ins {
            if lev(b, c) == bc_del {
                lemma_lev_triangle(a, b1, c);
            } else {
                lemma_lev_triangle(a, b1, c1);
            }
        } else {
            if lev(b, c) == bc_del {
                lemma_lev_triangle(a1, b1, c);
            } else {
                lemma_lev_triangle(a1, b1, c1);
            }
        }
    }
}

/// Whatever lies at distance `e` from `u`, while `q` lies at distance `d` from `u`,
/// lies at least `|e - d|` away from `q`.
pub proof fn lemma_lev_reverse_triangle(u: Seq<char>, x: Seq<char>, q: Seq<char>)
    ensures
        lev(u, x) - lev(u, q) <= lev(x, q),
        lev(u, q) - lev(u, x) <= lev(x, q),
{
    lemma_lev_triangle(u, q, x);
    lemma_lev_triangle(u, x, q);
    lemma_lev_symmetric(q, x);
}

fn min_of3(x: usize, y: usize, z: usize) -> (r: usize)
    ensures
        r == min3(x as nat, y as nat, z as nat),
{
    if x <= y && x <= z {
        x
    } else if y <= z {
        y
    } else {
        z
    }
}

fn chars_of(s: &str) -> (r: Vec<char>)
    ensures
        r@ == s@,
{
    let mut r: Vec<char> = Vec::new();
    for c in it: s.chars()
        invariant
            r@ == it.seq().take(it.index() as int),
    {
        r.push(c);
    }
    assert(r@ =~= s@);
    r
}

/// Levenshtein edit distance between `a` and `b`, counted in characters.
pub fn levenshtein_distance(a: &str, b: &str) -> (r: usize)
    ensures
        r == lev(a@, b@),
{
    let x = chars_of(a);
    let y = chars_of(b);
    let n = y.len();
    let mut prev: Vec<usize> = Vec::new();
    for j in 0..n
        invariant
            n == y@.len(),
            prev@.len() == j,
            forall|k: int| 0 <= k < j ==> prev@[k] == lev(Seq::empty(), y@.subrange(0, k)),
    {
        prev.push(j);
    }
    prev.push(n);
    assert(x@.subrange(0, 0) =~= Seq::<char>::empty());
    let m = x.len();
    for i in 0..m
        invariant
            m == x@.len(),
            n == y@.len(),
            prev@.len() == n + 1,
            forall|k: int|
                0 <= k <= n ==> prev@[k] == lev(x@.subrange(0, i as int), y@.subrange(0, k)),
    {
        let mut cur: Vec<usize> = Vec::new();
        cur.push(i + 1);
        for jj in 0..n
            invariant
                m == x@.len(),
                n == y@.len(),
                i < m,
                prev@.len() == n + 1,
                cur@.len() == jj + 1,
                forall|k: int|
                    0 <= k <= n ==> prev@[k] == lev(x@.subrange(0, i as int), y@.subrange(0, k)),
                forall|k: int|
                    0 <= k <= jj ==> cur@[k] == lev(x@.subrange(0, i + 1), y@.subrange(0, k)),
        {
            let j = jj + 1;
            let ghost xa = x@.subrange(0, i + 1);
            let ghost yb = y@.subrange(0, j as int);
            proof {
                assert(xa.drop_last() =~= x@.subrange(0, i as int));
                assert(yb.drop_last() =~= y@.subrange(0, j - 1));
                assert(xa.last() == x@[i as int]);
                assert(yb.last() == y@[j - 1]);
                lemma_lev_bounds(xa, yb);
            }
            // The distance fits in a usize, so a candidate held at usize::MAX
            // instead of overflowing is never the only minimum.
            let del = if prev[j] < usize::MAX { prev[j] + 1 } else { prev[j] };
            let ins = if cur[jj] < usize::MAX { cur[jj] + 1 } else { cur[jj] };
            let sub = if x[i] == y[jj] {
                prev[jj]
            } else if prev[jj] < usize::MAX {
                prev[jj] + 1
            } else {
                prev[jj]
            };
            let v = min_of3(del, ins, sub);
            assert(v == lev(xa, yb));
            cur.push(v);
        }
        prev = cur;
    }
    proof {
        assert(x@.subrange(0, x@.len() as int) =~= x@);
        assert(y@.subrange(0, n as int) =~= y@);
    }
    prev[n]
}

} // verus!
