//! Best-first searches over partial paths: a termination measure (each partial path weighs a
//! power of the branching bound, so replacing one by its fewer than `b` one-longer extensions
//! lowers the total), and the uniqueness of what such a search returns.

use vstd::prelude::*;

verus! {

/// `b` to the power `e`.
pub open spec fn power(b: nat, e: nat) -> nat
    decreases e,
{
    if e == 0 {
        1
    } else {
        b * power(b, (e - 1) as nat)
    }
}

pub proof fn lemma_power_positive(b: nat, e: nat)
    requires
        b >= 1,
    ensures
        power(b, e) >= 1,
    decreases e,
{
    if e > 0 {
        lemma_power_positive(b, (e - 1) as nat);
        let p = power(b, (e - 1) as nat);
        assert(b * p >= 1) by (nonlinear_arith)
            requires
                b >= 1,
                p >= 1,
        ;
    }
}

/// The weight of a partial path of length `len`: paths grow to length at most `m`, each step
/// into fewer than `b` extensions.
pub open spec fn weight(b: nat, m: nat, len: nat) -> nat {
    if len <= m {
        power(b, (m - len) as nat)
    } else {
        1
    }
}

/// The total weight of the partial paths still to examine; replacing a path by fewer than `b`
/// one-longer extensions lowers it.
pub open spec fn potential<A>(cs: Seq<Seq<A>>, b: nat, m: nat) -> nat
    decreases cs.len(),
{
    if cs.len() == 0 {
        0
    } else {
        potential(cs.drop_last(), b, m) + weight(b, m, cs.last().len())
    }
}

pub proof fn lemma_potential_remove<A>(cs: Seq<Seq<A>>, b: nat, m: nat, i: int)
    requires
        0 <= i < cs.len(),
    ensures
        potential(cs, b, m) == potential(cs.remove(i), b, m) + weight(b, m, cs[i].len()),
    decreases cs.len(),
{
    if i < cs.len() - 1 {
        lemma_potential_remove(cs.drop_last(), b, m, i);
        assert(cs.remove(i).drop_last() =~= cs.drop_last().remove(i));
        assert(cs.remove(i).last() == cs.last());
    } else {
        assert(cs.remove(i) =~= cs.drop_last());
    }
}

pub proof fn lemma_potential_append<A>(a: Seq<Seq<A>>, s: Seq<Seq<A>>, b: nat, m: nat, len: nat)
    requires
        forall|t: int| 0 <= t < s.len() ==> (#[trigger] s[t]).len() == len,
    ensures
        potential(a + s, b, m) == potential(a, b, m) + s.len() * weight(b, m, len),
    decreases s.len(),
{
    if s.len() == 0 {
        assert(a + s =~= a);
    } else {
        lemma_potential_append(a, s.drop_last(), b, m, len);
        assert((a + s).drop_last() =~= a + s.drop_last());
        assert((a + s).last() == s.last());
        let w = weight(b, m, len);
        let n = s.len();
        assert((n - 1) * w + w == n * w) by (nonlinear_arith);
    }
}

/// `lt` is a strict total order.
pub open spec fn strict_total<A>(lt: spec_fn(A, A) -> bool) -> bool {
    &&& forall|x: A| !#[trigger] lt(x, x)
    &&& forall|x: A, y: A, z: A| #[trigger] lt(x, y) && #[trigger] lt(y, z) ==> lt(x, z)
    &&& forall|x: A, y: A| x != y ==> #[trigger] lt(x, y) || lt(y, x)
}

/// `r` holds the first `limit` values satisfying `ok` in the order `lt`, ascending: all of
/// them when there are fewer.
pub open spec fn first_in_order<A>(ok: spec_fn(A) -> bool, lt: spec_fn(A, A) -> bool, limit: int, r: Seq<A>) -> bool {
    &&& r.len() <= limit
    &&& forall|i: int| 0 <= i < r.len() ==> ok(#[trigger] r[i])
    &&& forall|i: int, j: int| 0 <= i < j < r.len() ==> lt(#[trigger] r[i], #[trigger] r[j])
    &&& forall|q: A| #[trigger] ok(q) ==> r.contains(q) || (r.len() == limit && forall|i: int| 0 <= i < r.len() ==> lt(#[trigger] r[i], q))
}

proof fn lemma_first_in_order_at<A>(ok: spec_fn(A) -> bool, lt: spec_fn(A, A) -> bool, limit: int, r1: Seq<A>, r2: Seq<A>, k: int)
    requires
        strict_total(lt),
        first_in_order(ok, lt, limit, r1),
        first_in_order(ok, lt, limit, r2),
        0 <= k < r1.len(),
        k < r2.len(),
        forall|i: int| 0 <= i < k ==> r1[i] == r2[i],
    ensures
        r1[k] == r2[k],
{
    let x = r1[k];
    let y = r2[k];
    if x != y {
        assert(ok(x) && ok(y));
        if lt(x, y) {
            // x must sit in r2 before position k, or come after all of r2.
            if r2.contains(x) {
                let j = choose|j: int| 0 <= j < r2.len() && r2[j] == x;
                if j < k {
                    assert(r1[j] == x);
                    assert(lt(r1[j], r1[k]));
                } else if j > k {
                    assert(lt(r2[k], r2[j]));
                    assert(lt(y, x));
                    assert(lt(x, x));
                }
            } else {
                assert(lt(r2[k], x));
                assert(lt(x, x));
            }
        } else {
            assert(lt(y, x));
            if r1.contains(y) {
                let j = choose|j: int| 0 <= j < r1.len() && r1[j] == y;
                if j < k {
                    assert(r2[j] == y);
                    assert(lt(r2[j], r2[k]));
                } else if j > k {
                    assert(lt(r1[k], r1[j]));
                    assert(lt(x, y));
                    assert(lt(y, y));
                }
            } else {
                assert(lt(r1[k], y));
                assert(lt(y, y));
            }
        }
    }
}

proof fn lemma_first_in_order_prefix<A>(ok: spec_fn(A) -> bool, lt: spec_fn(A, A) -> bool, limit: int, r1: Seq<A>, r2: Seq<A>, k: int)
    requires
        strict_total(lt),
        first_in_order(ok, lt, limit, r1),
        first_in_order(ok, lt, limit, r2),
        0 <= k <= r1.len(),
        k <= r2.len(),
    ensures
        forall|i: int| 0 <= i < k ==> r1[i] == r2[i],
    decreases k,
{
    if k > 0 {
        lemma_first_in_order_prefix(ok, lt, limit, r1, r2, k - 1);
        lemma_first_in_order_at(ok, lt, limit, r1, r2, k - 1);
    }
}

/// The first values in an order are determined: two sequences that both hold them coincide.
pub proof fn lemma_first_in_order_unique<A>(ok: spec_fn(A) -> bool, lt: spec_fn(A, A) -> bool, limit: int, r1: Seq<A>, r2: Seq<A>)
    requires
        strict_total(lt),
        first_in_order(ok, lt, limit, r1),
        first_in_order(ok, lt, limit, r2),
    ensures
        r1 == r2,
{
    let n = if r1.len() < r2.len() { r1.len() } else { r2.len() };
    lemma_first_in_order_prefix(ok, lt, limit, r1, r2, n as int);
    if r1.len() < r2.len() {
        let y = r2[r1.len() as int];
        assert(ok(y));
        if r1.contains(y) {
            let j = choose|j: int| 0 <= j < r1.len() && r1[j] == y;
            assert(r2[j] == y);
            assert(lt(r2[j], r2[r1.len() as int]));
        }
    } else if r2.len() < r1.len() {
        let x = r1[r2.len() as int];
        assert(ok(x));
        if r2.contains(x) {
            let j = choose|j: int| 0 <= j < r2.len() && r2[j] == x;
            assert(r1[j] == x);
            assert(lt(r1[j], r1[r2.len() as int]));
        }
    }
    assert(r1 =~= r2);
}

} // verus!
