//! Baby-step giant-step solvers for the discrete logarithm problem. The
//! sequential and the parallel variant are both pinned by contract to the
//! value of the same specification function, `bsgs_spec`, so they agree on
//! every input; further lemmas relate that value to the defining equation
//! `g^x mod p == h` under the Fermat premise.
use crate::modmath::{
    fermat_holds, lemma_fermat_absorb, lemma_fermat_reduce, lemma_pow_mod_adds,
    lemma_pow_mod_bound, lemma_pow_mod_mul, lemma_pow_mod_zero_exp, pow_mod,
};
use crate::table::Table;
use crate::uint::Uint;
use rayon::iter::{IntoParallelRefIterator, ParallelIterator};
use vstd::prelude::*;
use vstd::arithmetic::div_mod::{
    lemma_fundamental_div_mod, lemma_mod_bound, lemma_mul_mod_noop_left, lemma_mul_mod_noop_right,
    lemma_small_mod,
};

verus! {

/// The integer square root, rounded down.
pub open spec fn isqrt(n: nat) -> nat
    decreases n,
{
    if n == 0 {
        0
    } else {
        let r = isqrt((n - 1) as nat);
        if (r + 1) * (r + 1) <= n {
            r + 1
        } else {
            r
        }
    }
}

/// `isqrt` is the truncated square root.
pub proof fn lemma_isqrt_bounds(n: nat)
    ensures
        isqrt(n) * isqrt(n) <= n,
        n < (isqrt(n) + 1) * (isqrt(n) + 1),
    decreases n,
{
    if n > 0 {
        lemma_isqrt_bounds((n - 1) as nat);
        let r = isqrt((n - 1) as nat);
        if (r + 1) * (r + 1) <= n {
            assert(isqrt(n) == r + 1);
            assert((r + 1) * (r + 1) < (r + 2) * (r + 2)) by (nonlinear_arith);
            assert(n <= (r + 1) * (r + 1));
            assert(n < (r + 2) * (r + 2));
            assert((isqrt(n) + 1) * (isqrt(n) + 1) == (r + 2) * (r + 2));
        } else {
            assert(isqrt(n) == r);
            assert(n < (r + 1) * (r + 1));
        }
    } else {
        assert(isqrt(0nat) == 0);
        assert(n < (isqrt(n) + 1) * (isqrt(n) + 1)) by (nonlinear_arith)
            requires
                n == 0,
                isqrt(n) == 0,
        ;
    }
}

/// The truncated square root is the unique `r` between the two squares.
pub proof fn lemma_isqrt_unique(n: nat, r: nat)
    requires
        r * r <= n,
        n < (r + 1) * (r + 1),
    ensures
        r == isqrt(n),
{
    lemma_isqrt_bounds(n);
    let s = isqrt(n);
    if r < s {
        assert(false) by (nonlinear_arith)
            requires
                r < s,
                s * s <= n,
                n < (r + 1) * (r + 1),
        ;
    }
    if s < r {
        assert(false) by (nonlinear_arith)
            requires
                s < r,
                r * r <= n,
                n < (s + 1) * (s + 1),
        ;
    }
}

/// The number of baby steps and of giant steps: `ceil(sqrt(p - 1))`,
/// over-approximated as `isqrt(p - 1) + 1`.
pub open spec fn step_bound(p: nat) -> nat
    recommends
        p >= 2,
{
    isqrt((p - 1) as nat) + 1
}

/// The moduli the solvers accept: the step bound must fit in a u64, which
/// holds far beyond any table that could be allocated.
pub open spec fn fits_u64(p: nat) -> bool {
    p - 1 <= (u64::MAX - 1) * (u64::MAX - 1)
}

proof fn lemma_step_bound_fits(p: nat)
    requires
        p >= 2,
        fits_u64(p),
    ensures
        step_bound(p) <= u64::MAX,
{
    lemma_isqrt_bounds((p - 1) as nat);
    let r = isqrt((p - 1) as nat);
    if r > u64::MAX - 1 {
        assert(false) by (nonlinear_arith)
            requires
                r >= u64::MAX,
                r * r <= (p - 1) as nat,
                (p - 1) as nat <= (u64::MAX - 1) * (u64::MAX - 1),
        ;
    }
}

/// The exponent the baby-step table holds for the group element `k`: the
/// largest `j < m` with `g^j mod p == k`, since later writers win.
pub open spec fn baby_lookup(g: nat, p: nat, m: nat, k: nat) -> Option<nat>
    decreases m,
{
    if m == 0 {
        None
    } else if pow_mod(g, (m - 1) as nat, p) == k {
        Some((m - 1) as nat)
    } else {
        baby_lookup(g, p, (m - 1) as nat, k)
    }
}

/// The group element probed at giant step `i`:
/// `h * (g^(m*(p-2)))^i mod p`.
pub open spec fn giant_probe(g: nat, h: nat, p: nat, m: nat, i: nat) -> nat
    recommends
        p >= 2,
{
    (h * pow_mod(pow_mod(g, (m * ((p - 2) as nat)) as nat, p), i, p)) % p
}

/// The giant-step scan from index `i` on: the first probe found in the
/// baby-step table yields `i * m + j`.
pub open spec fn giant_scan(g: nat, h: nat, p: nat, m: nat, i: nat) -> Option<nat>
    recommends
        p >= 2,
    decreases m - i,
{
    if i >= m {
        None
    } else {
        match baby_lookup(g, p, m, giant_probe(g, h, p, m, i)) {
            Some(j) => Some((i * m + j) as nat),
            None => giant_scan(g, h, p, m, i + 1),
        }
    }
}

/// The result of the baby-step giant-step search on `(g, h, p)`; both
/// solver variants return exactly this value.
pub open spec fn bsgs_spec(g: nat, h: nat, p: nat) -> Option<nat>
    recommends
        p >= 2,
{
    giant_scan(g, h, p, step_bound(p), 0)
}

/// The value of an optional group element.
pub open spec fn opt_nat(r: Option<Uint>) -> Option<nat> {
    match r {
        Some(x) => Some(x@),
        None => None,
    }
}

/// What `baby_lookup` answers: a found exponent is a witness below `m`, and
/// a miss means no exponent below `m` produces the key.
pub proof fn lemma_baby_lookup_props(g: nat, p: nat, m: nat, k: nat)
    ensures
        match baby_lookup(g, p, m, k) {
            Some(j) => j < m && pow_mod(g, j, p) == k,
            None => forall|j: nat| j < m ==> pow_mod(g, j, p) != k,
        },
    decreases m,
{
    if m > 0 {
        lemma_baby_lookup_props(g, p, (m - 1) as nat, k);
    }
}

/// Every exponent below `m` leaves its key in the table.
pub proof fn lemma_baby_lookup_finds(g: nat, p: nat, m: nat, j: nat)
    requires
        j < m,
    ensures
        baby_lookup(g, p, m, pow_mod(g, j, p)) is Some,
    decreases m,
{
    if j < m - 1 && pow_mod(g, (m - 1) as nat, p) != pow_mod(g, j, p) {
        lemma_baby_lookup_finds(g, p, (m - 1) as nat, j);
    }
}

/// A probe that matches a baby step reconstructs the discrete logarithm:
/// if `g^j ≡ h * c^i (mod p)` for `c = g^(m*(p-2)) mod p`, then
/// `g^(i*m+j) ≡ h`, under the Fermat premise.
pub proof fn lemma_hit(g: nat, h: nat, p: nat, m: nat, i: nat, j: nat)
    requires
        p >= 2,
        h < p,
        fermat_holds(g, p),
        pow_mod(g, j, p) == giant_probe(g, h, p, m, i),
    ensures
        pow_mod(g, (i * m + j) as nat, p) == h,
{
    let e1 = (m * ((p - 2) as nat)) as nat;
    let e2 = (e1 * i) as nat;
    lemma_pow_mod_mul(g, e1, i, p);
    let xx = pow_mod(g, (i * m) as nat, p);
    let yy = pow_mod(g, j, p);
    let zz = pow_mod(g, e2, p);
    assert(yy == (h * zz) % p);
    lemma_pow_mod_adds(g, (i * m) as nat, j, p);
    assert(pow_mod(g, (i * m + j) as nat, p) == (xx * yy) % p);
    lemma_mul_mod_noop_right(xx as int, (h * zz) as int, p as int);
    assert((xx * yy) % p == (xx * (h * zz)) % p);
    assert(xx * (h * zz) == (xx * zz) * h) by (nonlinear_arith);
    lemma_mul_mod_noop_left((xx * zz) as int, h as int, p as int);
    assert(((xx * zz) * h) % p == (((xx * zz) % p) * h) % p);
    lemma_pow_mod_adds(g, (i * m) as nat, e2, p);
    assert((xx * zz) % p == pow_mod(g, (i * m + e2) as nat, p));
    assert(i * m + e2 == 0 + (i * m) * ((p - 1) as nat)) by (nonlinear_arith)
        requires
            p >= 2,
            e2 == (m * ((p - 2) as nat)) * i,
    ;
    lemma_fermat_absorb(g, p, (i * m) as nat, 0);
    lemma_pow_mod_zero_exp(g, p);
    assert((xx * zz) % p == 1);
    lemma_small_mod(h, p);
    assert((1 * h) % p == h);
}

/// If a solution exists at all, the giant-step probe with index
/// `i = (x mod (p-1)) / m` matches the baby step `j = (x mod (p-1)) mod m`.
pub proof fn lemma_solution_probe(g: nat, h: nat, p: nat, m: nat, x: nat)
    requires
        p >= 2,
        m >= 1,
        p - 1 < m * m,
        fermat_holds(g, p),
        pow_mod(g, x, p) == h,
    ensures
        ({
            let i = ((x % ((p - 1) as nat)) / m) as nat;
            let j = ((x % ((p - 1) as nat)) % m) as nat;
            &&& i < m
            &&& j < m
            &&& pow_mod(g, j, p) == giant_probe(g, h, p, m, i)
        }),
{
    let n = (p - 1) as nat;
    let x2 = (x % n) as nat;
    let i = (x2 / m) as nat;
    let j = (x2 % m) as nat;
    lemma_mod_bound(x as int, n as int);
    lemma_fundamental_div_mod(x2 as int, m as int);
    lemma_mod_bound(x2 as int, m as int);
    assert(x2 == m * i + j);
    assert(i < m) by (nonlinear_arith)
        requires
            x2 == m * i + j,
            0 <= j,
            0 <= i,
            x2 < m * m,
    ;
    // h == g^(i*m+j) mod p
    lemma_fermat_reduce(g, p, x);
    assert(i * m + j == m * i + j) by (nonlinear_arith);
    assert(pow_mod(g, (i * m + j) as nat, p) == h);
    // the probe at i equals g^j mod p
    let e1 = (m * ((p - 2) as nat)) as nat;
    let e2 = (e1 * i) as nat;
    lemma_pow_mod_mul(g, e1, i, p);
    let ww = pow_mod(g, (i * m + j) as nat, p);
    let zz = pow_mod(g, e2, p);
    lemma_mul_mod_noop_left(ww as int, zz as int, p as int);
    lemma_pow_mod_bound(g, e2, p);
    lemma_small_mod(zz, p);
    lemma_mul_mod_noop_right(ww as int, zz as int, p as int);
    assert((h * zz) % p == (ww * zz) % p) by {
        lemma_pow_mod_bound(g, (i * m + j) as nat, p);
        lemma_small_mod(ww, p);
    }
    lemma_pow_mod_adds(g, (i * m + j) as nat, e2, p);
    assert((ww * zz) % p == pow_mod(g, (i * m + j + e2) as nat, p));
    assert(i * m + j + e2 == j + (i * m) * ((p - 1) as nat)) by (nonlinear_arith)
        requires
            p >= 2,
            e2 == (m * ((p - 2) as nat)) * i,
    ;
    lemma_fermat_absorb(g, p, (i * m) as nat, j);
    assert(pow_mod(g, (i * m + j + e2) as nat, p) == pow_mod(g, j, p));
    assert(giant_probe(g, h, p, m, i) == (h * zz) % p);
}

/// A completed scan means every probe from `i0` on missed the table.
pub proof fn lemma_giant_scan_none(g: nat, h: nat, p: nat, m: nat, i0: nat, i: nat)
    requires
        giant_scan(g, h, p, m, i0) is None,
        i0 <= i < m,
    ensures
        baby_lookup(g, p, m, giant_probe(g, h, p, m, i)) is None,
    decreases m - i0,
{
    if i0 < i {
        lemma_giant_scan_none(g, h, p, m, i0 + 1, i);
    }
}

/// A successful scan names the first matching giant step and its baby step.
pub proof fn lemma_giant_scan_some(g: nat, h: nat, p: nat, m: nat, i0: nat, x: nat)
    requires
        giant_scan(g, h, p, m, i0) == Some(x),
        i0 <= m,
    ensures
        exists|i: nat|
            i0 <= i < m && ((#[trigger] baby_lookup(g, p, m, giant_probe(g, h, p, m, i)))
                matches Some(j) && x == i * m + j),
    decreases m - i0,
{
    if i0 < m {
        match baby_lookup(g, p, m, giant_probe(g, h, p, m, i0)) {
            Some(j) => {
                assert(i0 <= i0 < m && (baby_lookup(g, p, m, giant_probe(g, h, p, m, i0))
                    matches Some(jj) && x == i0 * m + jj));
            },
            None => {
                lemma_giant_scan_some(g, h, p, m, i0 + 1, x);
            },
        }
    }
}

/// Round trip: whenever the search answers `Some(x)`, the answer solves the
/// defining equation `g^x mod p == h`, under the Fermat premise (which holds
/// in particular for prime `p` and `g` not a multiple of `p`).
pub proof fn lemma_round_trip(g: nat, h: nat, p: nat, x: nat)
    requires
        p >= 2,
        h < p,
        fermat_holds(g, p),
        bsgs_spec(g, h, p) == Some(x),
    ensures
        pow_mod(g, x, p) == h,
{
    let m = step_bound(p);
    lemma_giant_scan_some(g, h, p, m, 0, x);
    let i = choose|i: nat|
        0 <= i < m && ((#[trigger] baby_lookup(g, p, m, giant_probe(g, h, p, m, i)))
            matches Some(j) && x == i * m + j);
    let j = baby_lookup(g, p, m, giant_probe(g, h, p, m, i))->Some_0;
    lemma_baby_lookup_props(g, p, m, giant_probe(g, h, p, m, i));
    lemma_hit(g, h, p, m, i, j);
}

/// Completeness: if any exponent at all solves the equation, the search
/// answers `Some`, under the Fermat premise.
pub proof fn lemma_found_if_solvable(g: nat, h: nat, p: nat, x: nat)
    requires
        p >= 2,
        fermat_holds(g, p),
        pow_mod(g, x, p) == h,
    ensures
        bsgs_spec(g, h, p) is Some,
{
    let m = step_bound(p);
    lemma_isqrt_bounds((p - 1) as nat);
    assert(p - 1 < m * m);
    lemma_solution_probe(g, h, p, m, x);
    let i = ((x % ((p - 1) as nat)) / m) as nat;
    let j = ((x % ((p - 1) as nat)) % m) as nat;
    lemma_baby_lookup_finds(g, p, m, j);
    if bsgs_spec(g, h, p) is None {
        lemma_giant_scan_none(g, h, p, m, 0, i);
    }
}

/// The negative case: when the search answers `None`, no exponent at all
/// solves the equation, under the Fermat premise.
pub proof fn lemma_not_found(g: nat, h: nat, p: nat)
    requires
        p >= 2,
        fermat_holds(g, p),
        bsgs_spec(g, h, p) is None,
    ensures
        forall|x: nat| pow_mod(g, x, p) != h,
{
    assert forall|x: nat| pow_mod(g, x, p) != h by {
        if pow_mod(g, x, p) == h {
            lemma_found_if_solvable(g, h, p, x);
        }
    }
}

/// Sequential/parallel equivalence: `BSGS::run` and `Parallel::run` each
/// ensure that their result is exactly `bsgs_spec(g, h, p)`, so any two
/// results obtained for the same inputs — whichever variant and worker
/// count produced them — are the same value.
pub proof fn lemma_sequential_parallel_equivalent(
    g: nat,
    h: nat,
    p: nat,
    r1: Option<nat>,
    r2: Option<nat>,
)
    requires
        r1 == bsgs_spec(g, h, p),
        r2 == bsgs_spec(g, h, p),
    ensures
        r1 == r2,
{
}

/// What a solver's result means under the Fermat premise: an answer solves
/// the equation, a miss means nothing does.
proof fn lemma_run_correct(g: nat, h: nat, p: nat, r: Option<nat>)
    requires
        p >= 2,
        h < p,
        r == bsgs_spec(g, h, p),
    ensures
        fermat_holds(g, p) ==> match r {
            Some(x) => pow_mod(g, x, p) == h,
            None => forall|x: nat| pow_mod(g, x, p) != h,
        },
{
    if fermat_holds(g, p) {
        match r {
            Some(x) => lemma_round_trip(g, h, p, x),
            None => lemma_not_found(g, h, p),
        }
    }
}

/// Computes the step bound `m` both as a big number and as a machine word.
fn compute_bound(p: &Uint) -> (r: (Uint, u64))
    requires
        p@ >= 2,
        fits_u64(p@),
    ensures
        r.0.wf(),
        r.0@ == step_bound(p@),
        r.1 as nat == step_bound(p@),
        r.1 >= 1,
{
    let one = Uint::from_u64(1);
    let pm1 = p.minus(&one);
    let s = pm1.sqrt_floor();
    proof {
        lemma_isqrt_unique((p@ - 1) as nat, s@);
        lemma_step_bound_fits(p@);
    }
    let m_big = s.plus(&one);
    let m64: u64 = match m_big.to_u64() {
        Some(v) => v,
        None => {
            proof {
                assert(false);
            }
            0
        },
    };
    (m_big, m64)
}

/// The number of hash buckets used for a table of `m` baby steps.
fn bucket_count(m64: u64) -> (nb: usize)
    requires
        m64 >= 1,
    ensures
        nb >= 1,
{
    if m64 < 65536 {
        m64 as usize
    } else {
        65536
    }
}

/// Fills the baby-step table sequentially: `g^j mod p -> j` for `j < m`.
fn build_table(g: &Uint, p: &Uint, m64: u64) -> (t: Table)
    requires
        p@ >= 2,
        m64 >= 1,
    ensures
        t.inv(),
        forall|k: nat| t.lookup(k) == baby_lookup(g@, p@, m64 as nat, k),
{
    let nb = bucket_count(m64);
    let mut t = Table::new(nb);
    let mut j: u64 = 0;
    while j < m64
        invariant
            t.inv(),
            j <= m64,
            p@ >= 2,
            forall|k: nat| t.lookup(k) == baby_lookup(g@, p@, j as nat, k),
        decreases m64 - j,
    {
        let jb = Uint::from_u64(j);
        let key = g.modpow(&jb, p);
        t.insert(key, j);
        proof {
            assert forall|k: nat| t.lookup(k) == baby_lookup(g@, p@, (j + 1) as nat, k) by {
                assert(baby_lookup(g@, p@, (j + 1) as nat, k) == (if pow_mod(g@, j as nat, p@)
                    == k {
                    Some(j as nat)
                } else {
                    baby_lookup(g@, p@, j as nat, k)
                }));
            }
        }
        j = j + 1;
    }
    t
}

/// Scans the giant steps against a completed baby-step table and returns the
/// first reconstruction, exactly as `giant_scan` describes.
fn giant_phase(g: &Uint, h: &Uint, p: &Uint, m_big: &Uint, m64: u64, t: &Table) -> (r: Option<
    Uint,
>)
    requires
        p@ >= 2,
        m_big@ == m64 as nat,
        t.inv(),
        forall|k: nat| t.lookup(k) == baby_lookup(g@, p@, m64 as nat, k),
    ensures
        opt_nat(r) == giant_scan(g@, h@, p@, m64 as nat, 0),
        r matches Some(x) ==> x.wf(),
{
    let two = Uint::from_u64(2);
    let pm2 = p.minus(&two);
    let c = g.modpow(&m_big.times(&pm2), p);
    let mut i: u64 = 0;
    while i < m64
        invariant
            i <= m64,
            p@ >= 2,
            m_big@ == m64 as nat,
            c@ == pow_mod(g@, ((m64 as nat) * ((p@ - 2) as nat)) as nat, p@),
            t.inv(),
            forall|k: nat| t.lookup(k) == baby_lookup(g@, p@, m64 as nat, k),
            giant_scan(g@, h@, p@, m64 as nat, 0) == giant_scan(g@, h@, p@, m64 as nat, i as nat),
        decreases m64 - i,
    {
        let ib = Uint::from_u64(i);
        let cpi = c.modpow(&ib, p);
        let temp = h.times(&cpi).modulo(p);
        proof {
            assert(temp@ == giant_probe(g@, h@, p@, m64 as nat, i as nat));
        }
        match t.get(&temp) {
            Some(jv) => {
                let x = ib.times(m_big).plus(&Uint::from_u64(jv));
                proof {
                    assert(giant_scan(g@, h@, p@, m64 as nat, i as nat) == Some(
                        ((i as nat) * (m64 as nat) + (jv as nat)) as nat,
                    ));
                }
                return Some(x);
            },
            None => {},
        }
        proof {
            assert(giant_scan(g@, h@, p@, m64 as nat, i as nat) == giant_scan(
                g@,
                h@,
                p@,
                m64 as nat,
                (i + 1) as nat,
            ));
        }
        i = i + 1;
    }
    None
}

/// The sequential baby-step giant-step solver. The field carries a display
/// label for the algorithm, as handed to `new`.
#[derive(Debug, Clone)]
pub struct BSGS(String);

impl BSGS {
    /// The display label held by the wrapper.
    pub closed spec fn label_view(&self) -> Seq<char> {
        self.0@
    }

    /// Wraps a display label for the algorithm.
    pub fn new(bsgs: String) -> (r: Self)
        ensures
            r.label_view() == bsgs@,
    {
        BSGS(bsgs)
    }

    /// The display label handed to `new`.
    pub fn label(&self) -> (r: &String)
        ensures
            r@ == self.label_view(),
    {
        &self.0
    }

    /// Solves `g^x mod p == h` for `x`, scanning baby steps and giant steps
    /// sequentially; returns exactly the value of `bsgs_spec`. Under the
    /// Fermat premise an answer solves the equation, and a miss means no
    /// exponent at all solves it.
    pub fn run(g: &Uint, h: &Uint, p: &Uint) -> (r: Option<Uint>)
        requires
            p@ >= 2,
            g@ < p@,
            h@ < p@,
            fits_u64(p@),
        ensures
            opt_nat(r) == bsgs_spec(g@, h@, p@),
            r matches Some(x) ==> x.wf(),
            fermat_holds(g@, p@) ==> match r {
                Some(x) => pow_mod(g@, x@, p@) == h@,
                None => forall|x: nat| pow_mod(g@, x, p@) != h@,
            },
    {
        let bound = compute_bound(p);
        let m64 = bound.1;
        let t = build_table(g, p, m64);
        let r = giant_phase(g, h, p, &bound.0, m64, &t);
        proof {
            lemma_run_correct(g@, h@, p@, opt_nat(r));
        }
        r
    }
}

/// One worker's output for the sub-range `[start, end)`: the baby-step pairs
/// `(g^j mod p, j)` in order of `j`.
pub open spec fn chunk_ok(g: nat, p: nat, start: u64, end: u64, s: Seq<(Uint, u64)>) -> bool {
    &&& s.len() == end - start
    &&& forall|t: int|
        0 <= t < s.len() ==> {
            &&& (#[trigger] s[t]).1 == start + t
            &&& s[t].0.wf()
            &&& s[t].0@ == pow_mod(g, (start + t) as nat, p)
        }
}

/// The worker sub-ranges tile `[0, m)`: they start at zero, each begins
/// where the previous one ended, and the last one ends at `m`.
pub open spec fn ranges_chained(s: Seq<(u64, u64)>, m: u64) -> bool {
    &&& s.len() >= 1
    &&& s[0].0 == 0
    &&& s[s.len() - 1].1 == m
    &&& forall|k: int| 0 <= k < s.len() ==> (#[trigger] s[k]).0 <= s[k].1
    &&& forall|k: int| 1 <= k < s.len() ==> (#[trigger] s[k]).0 == s[k - 1].1
}

/// Chained ranges are ordered: an earlier range ends no later than a later
/// one begins.
pub proof fn lemma_ranges_ordered(s: Seq<(u64, u64)>, m: u64, k1: int, k2: int)
    requires
        ranges_chained(s, m),
        0 <= k1 < k2 < s.len(),
    ensures
        s[k1].1 <= s[k2].0,
    decreases k2 - k1,
{
    if k1 + 1 < k2 {
        lemma_ranges_ordered(s, m, k1, k2 - 1);
    }
}

/// Partition coverage: every baby-step index below `m` falls into exactly
/// one of the chained worker sub-ranges.
pub proof fn lemma_partition_covers(s: Seq<(u64, u64)>, m: u64, j: u64)
    requires
        ranges_chained(s, m),
        j < m,
    ensures
        exists|k: int| 0 <= k < s.len() && (#[trigger] s[k]).0 <= j < s[k].1,
        forall|k1: int, k2: int|
            0 <= k1 < s.len() && 0 <= k2 < s.len() && (#[trigger] s[k1]).0 <= j < s[k1].1 && (
            #[trigger] s[k2]).0 <= j < s[k2].1 ==> k1 == k2,
    decreases s.len(),
{
    // existence
    let last = s.len() - 1;
    if j >= s[last].0 {
        assert(0 <= last < s.len() && s[last].0 <= j < s[last].1);
    } else {
        let prefix = s.drop_last();
        let m2 = s[last].0;
        assert(prefix[prefix.len() - 1].1 == m2);
        assert(ranges_chained(prefix, m2));
        lemma_partition_covers(prefix, m2, j);
        let k = choose|k: int| 0 <= k < prefix.len() && (#[trigger] prefix[k]).0 <= j < prefix[k].1;
        assert(0 <= k < s.len() && s[k].0 <= j < s[k].1);
    }
    // uniqueness
    assert forall|k1: int, k2: int|
        0 <= k1 < s.len() && 0 <= k2 < s.len() && (#[trigger] s[k1]).0 <= j < s[k1].1 && (
        #[trigger] s[k2]).0 <= j < s[k2].1 implies k1 == k2 by {
        if k1 < k2 {
            lemma_ranges_ordered(s, m, k1, k2);
        }
        if k2 < k1 {
            lemma_ranges_ordered(s, m, k2, k1);
        }
    }
}

/// Splits `[0, m)` into `workers` contiguous sub-ranges: all but the last
/// have exactly `m / workers` indices, and the last absorbs the remainder.
pub fn make_ranges(m: u64, workers: usize) -> (r: Vec<(u64, u64)>)
    requires
        workers >= 1,
    ensures
        r@.len() == workers,
        ranges_chained(r@, m),
        forall|k: int|
            0 <= k < workers - 1 ==> (#[trigger] r@[k]).1 - r@[k].0 == m / (workers as u64),
{
    let wu: u64 = workers as u64;
    let chunk: u64 = m / wu;
    proof {
        lemma_fundamental_div_mod(m as int, wu as int);
        lemma_mod_bound(m as int, wu as int);
        assert(wu * chunk <= m);
    }
    let mut r: Vec<(u64, u64)> = Vec::new();
    let mut k: usize = 0;
    while k < workers
        invariant
            workers >= 1,
            wu == workers as u64,
            chunk == m / wu,
            wu * chunk <= m,
            k <= workers,
            r@.len() == k,
            forall|q: int| 0 <= q < k ==> (#[trigger] r@[q]).0 == q * chunk,
            forall|q: int|
                0 <= q < k ==> (#[trigger] r@[q]).1 == (if q == workers - 1 {
                    m as int
                } else {
                    (q + 1) * chunk
                }),
            forall|q: int| 0 <= q < k ==> (#[trigger] r@[q]).0 <= r@[q].1,
        decreases workers - k,
    {
        proof {
            assert((k as int) * chunk <= wu * chunk && (k as int + 1) * chunk <= wu * chunk && (k
                as int + 1) * chunk == (k as int) * chunk + chunk) by (nonlinear_arith)
                requires
                    0 <= (k as int),
                    (k as int) < (wu as int),
                    0 <= chunk,
            ;
        }
        let start: u64 = (k as u64) * chunk;
        let end: u64 = if k == workers - 1 {
            m
        } else {
            start + chunk
        };
        proof {
            assert((k as int) * chunk <= m);
        }
        r.push((start, end));
        k = k + 1;
    }
    proof {
        assert(r@[0].0 == 0);
        assert forall|q: int| 1 <= q < r@.len() implies (#[trigger] r@[q]).0 == r@[q - 1].1 by {
            if q - 1 != workers - 1 {
                assert(r@[q - 1].1 == q * chunk);
            }
        }
        assert forall|q: int| 0 <= q < workers - 1 implies (#[trigger] r@[q]).1 - r@[q].0 == m / (
        workers as u64) by {
            assert((q + 1) * chunk - q * chunk == chunk) by (nonlinear_arith);
        }
    }
    r
}

/// Computes the baby-step pairs for the sub-range `[start, end)`, the work
/// of one parallel worker.
fn baby_chunk(g: &Uint, p: &Uint, start: u64, end: u64) -> (r: Vec<(Uint, u64)>)
    requires
        p@ >= 2,
        start <= end,
    ensures
        chunk_ok(g@, p@, start, end, r@),
{
    let mut r: Vec<(Uint, u64)> = Vec::new();
    let mut j: u64 = start;
    while j < end
        invariant
            p@ >= 2,
            start <= j <= end,
            r@.len() == j - start,
            forall|t: int|
                0 <= t < r@.len() ==> (#[trigger] r@[t]).1 == start + t && r@[t].0.wf() && r@[t].0@
                    == pow_mod(g@, (start + t) as nat, p@),
        decreases end - j,
    {
        let jb = Uint::from_u64(j);
        let key = g.modpow(&jb, p);
        r.push((key, j));
        j = j + 1;
    }
    r
}

/// Relies on num_cpus::get, which returns the number of available CPUs and
/// is documented to always return at least one.
#[verifier::external_body]
fn cpu_workers() -> (r: usize)
    ensures
        r >= 1,
{
    num_cpus::get()
}

/// Relies on rayon: `par_iter` over the sub-ranges, `map` with a closure
/// that only calls the verified `baby_chunk`, and `collect`, which keeps
/// the results in the order of their inputs.
#[verifier::external_body]
fn par_baby_chunks(g: &Uint, p: &Uint, ranges: &Vec<(u64, u64)>) -> (r: Vec<Vec<(Uint, u64)>>)
    requires
        p@ >= 2,
        forall|k: int| 0 <= k < ranges@.len() ==> (#[trigger] ranges@[k]).0 <= ranges@[k].1,
    ensures
        r@.len() == ranges@.len(),
        forall|k: int|
            0 <= k < r@.len() ==> chunk_ok(g@, p@, ranges@[k].0, ranges@[k].1, (#[trigger] r@[k])@),
{
    ranges.par_iter().map(|pr| baby_chunk(g, p, pr.0, pr.1)).collect()
}

/// Fills the baby-step table by dispatching the sub-ranges of `[0, m)` to
/// parallel workers and folding their outputs in range order, which yields
/// the same table as the sequential fill.
fn build_table_parallel(g: &Uint, p: &Uint, m64: u64, workers: usize) -> (t: Table)
    requires
        p@ >= 2,
        m64 >= 1,
        workers >= 1,
    ensures
        t.inv(),
        forall|k: nat| t.lookup(k) == baby_lookup(g@, p@, m64 as nat, k),
{
    let ranges = make_ranges(m64, workers);
    let chunks = par_baby_chunks(g, p, &ranges);
    let nb = bucket_count(m64);
    let mut t = Table::new(nb);
    let mut k: usize = 0;
    while k < chunks.len()
        invariant
            t.inv(),
            p@ >= 2,
            k <= chunks@.len(),
            chunks@.len() == ranges@.len(),
            ranges_chained(ranges@, m64),
            forall|q: int|
                0 <= q < chunks@.len() ==> chunk_ok(
                    g@,
                    p@,
                    ranges@[q].0,
                    ranges@[q].1,
                    (#[trigger] chunks@[q])@,
                ),
            forall|kk: nat|
                t.lookup(kk) == baby_lookup(
                    g@,
                    p@,
                    (if k == 0 {
                        0
                    } else {
                        ranges@[k - 1].1 as nat
                    }),
                    kk,
                ),
        decreases chunks@.len() - k,
    {
        let start = ranges[k].0;
        let ghost end = ranges@[k as int].1;
        proof {
            if k > 0 {
                assert(ranges@[k as int].0 == ranges@[k as int - 1].1);
            }
        }
        let mut q: usize = 0;
        while q < chunks[k].len()
            invariant
                t.inv(),
                p@ >= 2,
                0 <= k < chunks@.len(),
                q <= chunks@[k as int]@.len(),
                start == ranges@[k as int].0,
                end == ranges@[k as int].1,
                chunk_ok(g@, p@, start, end, chunks@[k as int]@),
                forall|kk: nat| t.lookup(kk) == baby_lookup(g@, p@, (start + q) as nat, kk),
            decreases chunks@[k as int]@.len() - q,
        {
            let pair = &chunks[k][q];
            let e = pair.0.duplicate();
            let j = pair.1;
            proof {
                assert(chunks@[k as int]@[q as int].1 == start + q);
                assert(e@ == pow_mod(g@, (start + q) as nat, p@));
                assert(e.wf());
            }
            t.insert(e, j);
            proof {
                assert forall|kk: nat|
                    t.lookup(kk) == baby_lookup(g@, p@, (start + q + 1) as nat, kk) by {
                    assert(baby_lookup(g@, p@, (start + q + 1) as nat, kk) == (if pow_mod(
                        g@,
                        (start + q) as nat,
                        p@,
                    ) == kk {
                        Some((start + q) as nat)
                    } else {
                        baby_lookup(g@, p@, (start + q) as nat, kk)
                    }));
                }
            }
            q = q + 1;
        }
        proof {
            assert(start + chunks@[k as int]@.len() == end);
        }
        k = k + 1;
    }
    proof {
        assert(ranges@[ranges@.len() - 1].1 == m64);
    }
    t
}

/// The parallel baby-step giant-step solver. The field carries a display
/// label for the algorithm.
#[derive(Debug, Clone)]
pub struct Parallel(String);

impl Parallel {
    /// Solves `g^x mod p == h` with the baby-step table filled by one
    /// worker per available CPU; returns exactly the value of `bsgs_spec`,
    /// the same result as the sequential solver.
    pub fn run(g: &Uint, h: &Uint, p: &Uint) -> (r: Option<Uint>)
        requires
            p@ >= 2,
            g@ < p@,
            h@ < p@,
            fits_u64(p@),
        ensures
            opt_nat(r) == bsgs_spec(g@, h@, p@),
            r matches Some(x) ==> x.wf(),
            fermat_holds(g@, p@) ==> match r {
                Some(x) => pow_mod(g@, x@, p@) == h@,
                None => forall|x: nat| pow_mod(g@, x, p@) != h@,
            },
    {
        let workers = cpu_workers();
        Parallel::run_with_workers(g, h, p, workers)
    }

    /// Solves `g^x mod p == h` with the baby-step table filled by the given
    /// number of workers; the result does not depend on that number.
    pub fn run_with_workers(g: &Uint, h: &Uint, p: &Uint, workers: usize) -> (r: Option<Uint>)
        requires
            p@ >= 2,
            g@ < p@,
            h@ < p@,
            fits_u64(p@),
            workers >= 1,
        ensures
            opt_nat(r) == bsgs_spec(g@, h@, p@),
            r matches Some(x) ==> x.wf(),
            fermat_holds(g@, p@) ==> match r {
                Some(x) => pow_mod(g@, x@, p@) == h@,
                None => forall|x: nat| pow_mod(g@, x, p@) != h@,
            },
    {
        let bound = compute_bound(p);
        let m64 = bound.1;
        let t = build_table_parallel(g, p, m64, workers);
        let r = giant_phase(g, h, p, &bound.0, m64, &t);
        proof {
            lemma_run_correct(g@, h@, p@, opt_nat(r));
        }
        r
    }
}

} // verus!
