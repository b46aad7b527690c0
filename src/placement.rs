//! Choosing mine positions: a Fisher–Yates shuffle driven by a sequence of draws,
//! and the mine mask that a list of distinct positions gives.

use vstd::prelude::*;

verus! {

/// The first `k` steps of a Fisher–Yates shuffle of `0..n`: step `a` swaps position `a`
/// with position `a + draws[a] % (n - a)`.
pub open spec fn shuffled(n: nat, draws: Seq<usize>, k: nat) -> Seq<usize>
    decreases k,
{
    if k == 0 {
        Seq::new(n, |i: int| i as usize)
    } else {
        let a = k - 1;
        let p = shuffled(n, draws, a as nat);
        let j = a + (draws[a] as int) % (n - a);
        p.update(a, p[j]).update(j, p[a])
    }
}

/// The positions that the first `m` draws select.
pub open spec fn drawn_positions(n: nat, draws: Seq<usize>, m: nat) -> Seq<usize> {
    shuffled(n, draws, m).subrange(0, m as int)
}

/// The positions that hold `true`.
pub open spec fn set_positions(mask: Seq<bool>) -> Set<int> {
    Set::new(|i: int| 0 <= i < mask.len() && mask[i])
}

/// Relies on rand's `Uniform::from(0..bound)` sampled from `thread_rng`: the value lies in
/// `[0, bound)` (`Uniform::new` panics on an empty range, which `requires` rules out).
#[verifier::external_body]
pub(crate) fn random_below(bound: usize) -> (r: usize)
    requires
        bound > 0,
    ensures
        r < bound,
{
    rand::distributions::Distribution::sample(
        &rand::distributions::Uniform::from(0..bound),
        &mut rand::thread_rng(),
    )
}

/// Draws `m` numbers, the `k`-th uniformly from `[0, n - k)`: a uniform choice of `m`
/// distinct positions once fed to `shuffle_prefix`.
pub fn random_draws(n: usize, m: usize) -> (draws: Vec<usize>)
    requires
        m <= n,
    ensures
        draws@.len() == m,
        forall|k: int| 0 <= k < m ==> #[trigger] draws@[k] < n - k,
{
    let mut draws: Vec<usize> = Vec::new();
    let mut k: usize = 0;
    while k < m
        invariant
            k <= m <= n,
            draws@.len() == k,
            forall|j: int| 0 <= j < k ==> #[trigger] draws@[j] < n - j,
        decreases m - k,
    {
        let d = random_below(n - k);
        draws.push(d);
        k = k + 1;
    }
    draws
}

/// Runs the first `m` steps of the shuffle of `0..n` that `draws` drives.
pub fn shuffle_prefix(n: usize, m: usize, draws: &Vec<usize>) -> (perm: Vec<usize>)
    requires
        m <= n,
        m <= draws@.len(),
    ensures
        perm@ == shuffled(n as nat, draws@, m as nat),
        perm@.len() == n,
        forall|i: int| 0 <= i < n ==> #[trigger] perm@[i] < n,
        perm@.no_duplicates(),
{
    let mut perm: Vec<usize> = Vec::new();
    let mut i: usize = 0;
    while i < n
        invariant
            i <= n,
            perm@ =~= Seq::new(i as nat, |x: int| x as usize),
        decreases n - i,
    {
        perm.push(i);
        i = i + 1;
    }
    assert(perm@ =~= shuffled(n as nat, draws@, 0));
    let mut k: usize = 0;
    while k < m
        invariant
            k <= m <= n,
            m <= draws@.len(),
            perm@ == shuffled(n as nat, draws@, k as nat),
            perm@.len() == n,
            forall|i: int| 0 <= i < n ==> #[trigger] perm@[i] < n,
            perm@.no_duplicates(),
        decreases m - k,
    {
        let j = k + draws[k] % (n - k);
        let x = perm[k];
        let y = perm[j];
        perm.set(k, y);
        perm.set(j, x);
        k = k + 1;
    }
    perm
}

/// The mask with `true` exactly at the listed positions; `None` when a position repeats.
pub fn mark_mines(n: usize, positions: &Vec<usize>) -> (mask: Option<Vec<bool>>)
    requires
        forall|k: int| 0 <= k < positions@.len() ==> #[trigger] positions@[k] < n,
    ensures
        mask.is_none() <==> !positions@.no_duplicates(),
        mask matches Some(g) ==> {
            &&& g@.len() == n
            &&& forall|i: int| 0 <= i < n ==> (#[trigger] g@[i] <==> positions@.contains(i as usize))
            &&& set_positions(g@).len() == positions@.len()
        },
{
    let mut g: Vec<bool> = Vec::new();
    let mut i: usize = 0;
    while i < n
        invariant
            i <= n,
            g@ =~= Seq::new(i as nat, |x: int| false),
        decreases n - i,
    {
        g.push(false);
        i = i + 1;
    }
    assert(set_positions(g@) =~= Set::empty());
    let mut j: usize = 0;
    while j < positions.len()
        invariant
            j <= positions@.len(),
            g@.len() == n,
            forall|k: int| 0 <= k < positions@.len() ==> #[trigger] positions@[k] < n,
            forall|x: int|
                0 <= x < n ==> (#[trigger] g@[x] <==> positions@.subrange(0, j as int).contains(x as usize)),
            positions@.subrange(0, j as int).no_duplicates(),
            set_positions(g@).finite(),
            set_positions(g@).len() == j,
        decreases positions@.len() - j,
    {
        let p = positions[j];
        if g[p] {
            let ghost pre = positions@.subrange(0, j as int);
            let ghost k = choose|k: int| 0 <= k < pre.len() && pre[k] == p;
            assert(positions@[k] == positions@[j as int]);
            return None;
        }
        let ghost before = g@;
        g.set(p, true);
        assert(set_positions(g@) =~= set_positions(before).insert(p as int));
        let ghost pre = positions@.subrange(0, j as int);
        assert(positions@.subrange(0, j + 1) =~= pre.push(p));
        assert forall|x: int| 0 <= x < n implies (#[trigger] g@[x] <==> pre.push(p).contains(x as usize)) by {
            if x == p as int {
                assert(pre.push(p)[j as int] == p);
            } else if pre.push(p).contains(x as usize) {
                let k = choose|k: int| 0 <= k < pre.push(p).len() && pre.push(p)[k] == x as usize;
                assert(pre[k] == x as usize);
            }
        }
        j = j + 1;
    }
    assert(positions@.subrange(0, j as int) =~= positions@);
    Some(g)
}

} // verus!
