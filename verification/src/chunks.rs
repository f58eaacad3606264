//! Width-agnostic chunked iteration: map and fold over lane-sized groups.
//!
//! A sequence is walked in strictly increasing order in groups of `lanes`
//! elements. Full groups are handed to the group function unchanged; the
//! final partial group of length `r` is padded up to `lanes` with a fill
//! value, and only the first `r` results are kept (for a map) or only the
//! first `r` lanes carry real data (for a fold, whose padding must be
//! neutral for its combine function). The group functions are supplied by
//! the caller as closures over whole lane groups, mirrored by spec
//! functions.

use vstd::prelude::*;

use crate::dispatch::{SimdOp, SimdWidth};

verus! {

broadcast use vstd::std_specs::vec::group_vec_axioms;

/// The value `x` in every one of `lanes` lanes.
pub open spec fn splat<T>(lanes: int, x: T) -> Seq<T> {
    Seq::new(
        if lanes >= 0 {
            lanes as nat
        } else {
            0
        },
        |k: int| x,
    )
}

/// The identity on lane groups.
pub open spec fn seq_id<T>() -> spec_fn(Seq<T>) -> Seq<T> {
    |q: Seq<T>| q
}

/// Chunked map: apply `f` to each `lanes`-sized group of `s`; the final
/// partial group is padded with `fill` and only its real lanes are kept.
pub open spec fn map_chunks<T>(
    s: Seq<T>,
    lanes: int,
    fill: T,
    f: spec_fn(Seq<T>) -> Seq<T>,
) -> Seq<T>
    decreases s.len(),
{
    if s.len() == 0 || lanes < 1 {
        Seq::empty()
    } else if s.len() >= lanes {
        f(s.take(lanes)).take(lanes) + map_chunks(s.skip(lanes), lanes, fill, f)
    } else {
        f(s + splat(lanes - s.len(), fill)).take(s.len() as int)
    }
}

/// Chunked fold: combine each `lanes`-sized group of `s` into the running
/// accumulator with `f`; the final partial group is padded with `fill`.
pub open spec fn fold_chunks<T>(
    acc: Seq<T>,
    s: Seq<T>,
    lanes: int,
    fill: T,
    f: spec_fn(Seq<T>, Seq<T>) -> Seq<T>,
) -> Seq<T>
    decreases s.len(),
{
    if s.len() == 0 || lanes < 1 {
        acc
    } else if s.len() >= lanes {
        fold_chunks(f(acc, s.take(lanes)), s.skip(lanes), lanes, fill, f)
    } else {
        f(acc, s + splat(lanes - s.len(), fill))
    }
}

/// Horizontal reduction: combine the lanes of `acc` left to right with `g`,
/// seeded with `seed`.
pub open spec fn hfold<T>(acc: Seq<T>, seed: T, g: spec_fn(T, T) -> T) -> T
    decreases acc.len(),
{
    if acc.len() == 0 {
        seed
    } else {
        g(hfold(acc.drop_last(), seed, g), acc.last())
    }
}

/// Walk `src` in `lanes`-sized groups in strictly increasing order: apply
/// `f` to each full group unchanged, pad the final partial group with
/// `fill`, and keep only the real lanes of its result. `fspec` is the
/// mathematical meaning of `f`, which `f`'s postcondition must pin down.
pub fn chunked_map<T: Copy, F: Fn(Vec<T>) -> Vec<T>>(
    src: &Vec<T>,
    lanes: usize,
    fill: T,
    f: F,
    Ghost(fspec): Ghost<spec_fn(Seq<T>) -> Seq<T>>,
) -> (out: Vec<T>)
    requires
        lanes >= 1,
        forall|v: Vec<T>| v@.len() == lanes ==> call_requires(f, (v,)),
        forall|v: Vec<T>, r: Vec<T>| call_ensures(f, (v,), r) ==> r@ == fspec(v@),
        forall|q: Seq<T>| q.len() == lanes ==> (#[trigger] fspec(q)).len() == lanes,
    ensures
        out@.len() == src@.len(),
        out@ == map_chunks(src@, lanes as int, fill, fspec),
{
    let ghost s = src@;
    let n = src.len();
    proof {
        assert(s.skip(0) =~= s);
        assert(Seq::<T>::empty() + map_chunks(s, lanes as int, fill, fspec) =~= map_chunks(
            s,
            lanes as int,
            fill,
            fspec,
        ));
    }
    let mut out: Vec<T> = Vec::new();
    let mut i: usize = 0;
    while i < src.len()
        invariant
            src@ == s,
            n == s.len(),
            lanes >= 1,
            i <= s.len(),
            out@.len() == i,
            map_chunks(s, lanes as int, fill, fspec) == out@ + map_chunks(
                s.skip(i as int),
                lanes as int,
                fill,
                fspec,
            ),
            forall|v: Vec<T>| v@.len() == lanes ==> call_requires(f, (v,)),
            forall|v: Vec<T>, r: Vec<T>| call_ensures(f, (v,), r) ==> r@ == fspec(v@),
            forall|q: Seq<T>| q.len() == lanes ==> (#[trigger] fspec(q)).len() == lanes,
        decreases s.len() - i,
    {
        let remaining = src.len() - i;
        let gl = if remaining >= lanes {
            lanes
        } else {
            remaining
        };
        let mut g: Vec<T> = Vec::new();
        let mut j: usize = 0;
        while j < gl
            invariant
                src@ == s,
                n == s.len(),
                i + gl <= n,
                j <= gl,
                g@ == s.subrange(i as int, i + j),
            decreases gl - j,
        {
            g.push(src[i + j]);
            j = j + 1;
            proof {
                assert(s.subrange(i as int, i + j - 1).push(s[i + j - 1]) =~= s.subrange(
                    i as int,
                    i + j,
                ));
            }
        }
        proof {
            assert(g@ =~= s.subrange(i as int, i + gl) + splat(0, fill));
        }
        while g.len() < lanes
            invariant
                g@.len() >= gl,
                g@.len() <= lanes,
                g@ == s.subrange(i as int, i + gl) + splat(g@.len() - gl, fill),
            decreases lanes - g@.len(),
        {
            g.push(fill);
            proof {
                assert((s.subrange(i as int, i + gl) + splat(g@.len() - 1 - gl, fill)).push(fill)
                    =~= s.subrange(i as int, i + gl) + splat(g@.len() - gl, fill));
            }
        }
        proof {
            assert(g@ == s.subrange(i as int, i + gl) + splat((lanes - gl) as int, fill));
            if gl == lanes {
                assert(g@ =~= s.skip(i as int).take(lanes as int));
            } else {
                assert(s.subrange(i as int, i + gl) =~= s.skip(i as int));
                assert(g@ =~= s.skip(i as int) + splat(lanes - s.skip(i as int).len(), fill));
            }
        }
        let r = f(g);
        assert(r@.len() == lanes);
        let ghost out0 = out@;
        let mut j: usize = 0;
        while j < gl
            invariant
                j <= gl,
                gl <= lanes,
                r@.len() == lanes,
                out@ == out0 + r@.take(j as int),
            decreases gl - j,
        {
            out.push(r[j]);
            j = j + 1;
            proof {
                assert(out0 + r@.take(j - 1) + seq![r@[j - 1]] =~= out0 + r@.take(j as int));
            }
        }
        proof {
            if gl == lanes {
                assert(s.skip(i as int).skip(lanes as int) =~= s.skip(i + lanes));
            } else {
                assert(s.skip(i + gl) =~= Seq::<T>::empty());
                assert(out0 + r@.take(gl as int) + Seq::<T>::empty() =~= out0 + r@.take(gl as int));
            }
        }
        i = i + gl;
    }
    proof {
        assert(s.skip(s.len() as int) =~= Seq::<T>::empty());
        assert(out@ + Seq::<T>::empty() =~= out@);
    }
    out
}

/// Walk `src` in `lanes`-sized groups in strictly increasing order,
/// combining each group into a running accumulator vector that starts as
/// `seed` in every lane; the final partial group is padded with `seed`,
/// which the caller chooses so that padding is neutral for `f`.
pub fn chunked_fold<T: Copy, F: Fn(Vec<T>, Vec<T>) -> Vec<T>>(
    src: &Vec<T>,
    lanes: usize,
    seed: T,
    f: F,
    Ghost(fspec): Ghost<spec_fn(Seq<T>, Seq<T>) -> Seq<T>>,
) -> (acc: Vec<T>)
    requires
        lanes >= 1,
        forall|a: Vec<T>, v: Vec<T>| a@.len() == lanes && v@.len() == lanes ==> call_requires(
            f,
            (a, v),
        ),
        forall|a: Vec<T>, v: Vec<T>, r: Vec<T>| call_ensures(f, (a, v), r) ==> r@ == fspec(a@, v@),
        forall|a: Seq<T>, q: Seq<T>| a.len() == lanes && q.len() == lanes ==> (#[trigger] fspec(
            a,
            q,
        )).len() == lanes,
    ensures
        acc@.len() == lanes,
        acc@ == fold_chunks(splat(lanes as int, seed), src@, lanes as int, seed, fspec),
{
    let ghost s = src@;
    let n = src.len();
    proof {
        assert(s.skip(0) =~= s);
    }
    let mut acc: Vec<T> = Vec::new();
    while acc.len() < lanes
        invariant
            acc@.len() <= lanes,
            acc@ == splat(acc@.len() as int, seed),
        decreases lanes - acc@.len(),
    {
        acc.push(seed);
        proof {
            assert(splat(acc@.len() - 1, seed).push(seed) =~= splat(acc@.len() as int, seed));
        }
    }
    let mut i: usize = 0;
    while i < src.len()
        invariant
            src@ == s,
            n == s.len(),
            lanes >= 1,
            i <= s.len(),
            acc@.len() == lanes,
            fold_chunks(splat(lanes as int, seed), s, lanes as int, seed, fspec) == fold_chunks(
                acc@,
                s.skip(i as int),
                lanes as int,
                seed,
                fspec,
            ),
            forall|a: Vec<T>, v: Vec<T>| a@.len() == lanes && v@.len() == lanes ==> call_requires(
                f,
                (a, v),
            ),
            forall|a: Vec<T>, v: Vec<T>, r: Vec<T>| call_ensures(f, (a, v), r) ==> r@ == fspec(
                a@,
                v@,
            ),
            forall|a: Seq<T>, q: Seq<T>| a.len() == lanes && q.len() == lanes ==> (#[trigger] fspec(
                a,
                q,
            )).len() == lanes,
        decreases s.len() - i,
    {
        let remaining = src.len() - i;
        let gl = if remaining >= lanes {
            lanes
        } else {
            remaining
        };
        let mut g: Vec<T> = Vec::new();
        let mut j: usize = 0;
        while j < gl
            invariant
                src@ == s,
                n == s.len(),
                i + gl <= n,
                j <= gl,
                g@ == s.subrange(i as int, i + j),
            decreases gl - j,
        {
            g.push(src[i + j]);
            j = j + 1;
            proof {
                assert(s.subrange(i as int, i + j - 1).push(s[i + j - 1]) =~= s.subrange(
                    i as int,
                    i + j,
                ));
            }
        }
        proof {
            assert(g@ =~= s.subrange(i as int, i + gl) + splat(0, seed));
        }
        while g.len() < lanes
            invariant
                g@.len() >= gl,
                g@.len() <= lanes,
                g@ == s.subrange(i as int, i + gl) + splat(g@.len() - gl, seed),
            decreases lanes - g@.len(),
        {
            g.push(seed);
            proof {
                assert((s.subrange(i as int, i + gl) + splat(g@.len() - 1 - gl, seed)).push(seed)
                    =~= s.subrange(i as int, i + gl) + splat(g@.len() - gl, seed));
            }
        }
        proof {
            if gl == lanes {
                assert(g@ =~= s.skip(i as int).take(lanes as int));
            } else {
                assert(s.subrange(i as int, i + gl) =~= s.skip(i as int));
                assert(g@ =~= s.skip(i as int) + splat(lanes - s.skip(i as int).len(), seed));
            }
        }
        acc = f(acc, g);
        assert(acc@.len() == lanes);
        proof {
            if gl == lanes {
                assert(s.skip(i as int).skip(lanes as int) =~= s.skip(i + lanes));
            } else {
                assert(s.skip(i + gl) =~= Seq::<T>::empty());
            }
        }
        i = i + gl;
    }
    proof {
        assert(s.skip(s.len() as int) =~= Seq::<T>::empty());
    }
    acc
}

/// Horizontally combine all lanes of `acc` with `g`, seeded with `seed`,
/// and rebroadcast the single resulting value to all lanes, so callers can
/// keep working in vector form after the reduction.
pub fn fold_splat<T: Copy, G: Fn(T, T) -> T>(
    acc: &Vec<T>,
    seed: T,
    g: G,
    Ghost(gspec): Ghost<spec_fn(T, T) -> T>,
) -> (r: Vec<T>)
    requires
        forall|a: T, b: T| call_requires(g, (a, b)),
        forall|a: T, b: T, c: T| call_ensures(g, (a, b), c) ==> c == gspec(a, b),
    ensures
        r@.len() == acc@.len(),
        r@ == splat(acc@.len() as int, hfold(acc@, seed, gspec)),
{
    let ghost a = acc@;
    let mut x = seed;
    let mut i: usize = 0;
    while i < acc.len()
        invariant
            acc@ == a,
            i <= a.len(),
            x == hfold(a.take(i as int), seed, gspec),
            forall|p: T, q: T| call_requires(g, (p, q)),
            forall|p: T, q: T, c: T| call_ensures(g, (p, q), c) ==> c == gspec(p, q),
        decreases a.len() - i,
    {
        x = g(x, acc[i]);
        i = i + 1;
        proof {
            assert(a.take(i as int).drop_last() =~= a.take(i - 1));
            assert(a.take(i as int).last() == a[i - 1]);
        }
    }
    proof {
        assert(a.take(a.len() as int) =~= a);
    }
    let mut r: Vec<T> = Vec::new();
    while r.len() < acc.len()
        invariant
            acc@ == a,
            r@.len() <= a.len(),
            x == hfold(a, seed, gspec),
            r@ == splat(r@.len() as int, x),
        decreases a.len() - r@.len(),
    {
        r.push(x);
        proof {
            assert(splat(r@.len() - 1, x).push(x) =~= splat(r@.len() as int, x));
        }
    }
    r
}

/// Elementwise maximum on lane groups, as a spec function.
pub open spec fn emax_fn() -> spec_fn(Seq<i64>, Seq<i64>) -> Seq<i64> {
    |a: Seq<i64>, b: Seq<i64>|
        Seq::new(
            a.len(),
            |l: int|
                if a[l] >= b[l] {
                    a[l]
                } else {
                    b[l]
                },
        )
}

/// Scalar maximum, as a spec function.
pub open spec fn smax_fn() -> spec_fn(i64, i64) -> i64 {
    |a: i64, b: i64|
        if a >= b {
            a
        } else {
            b
        }
}

/// The largest value of `s`, or the minimum representable value when `s`
/// is empty.
pub open spec fn seq_max(s: Seq<i64>) -> i64
    decreases s.len(),
{
    if s.len() == 0 {
        i64::MIN
    } else if seq_max(s.drop_last()) >= s.last() {
        seq_max(s.drop_last())
    } else {
        s.last()
    }
}

/// The maximum of a concatenation is the larger of the two maxima.
pub proof fn lemma_seq_max_concat(a: Seq<i64>, b: Seq<i64>)
    ensures
        seq_max(a + b) == if seq_max(a) >= seq_max(b) {
            seq_max(a)
        } else {
            seq_max(b)
        },
    decreases b.len(),
{
    if b.len() == 0 {
        assert(a + b =~= a);
    } else {
        assert((a + b).drop_last() =~= a + b.drop_last());
        assert((a + b).last() == b.last());
        lemma_seq_max_concat(a, b.drop_last());
    }
}

/// A sequence holding only the minimum value has it as maximum.
pub proof fn lemma_seq_max_splat_min(n: int)
    ensures
        seq_max(splat(n, i64::MIN)) == i64::MIN,
    decreases n,
{
    if n > 0 {
        assert(splat(n, i64::MIN).drop_last() =~= splat(n - 1, i64::MIN));
        lemma_seq_max_splat_min(n - 1);
    }
}

/// The maximum of an elementwise maximum is the larger of the two maxima.
pub proof fn lemma_seq_max_emax(a: Seq<i64>, b: Seq<i64>)
    requires
        a.len() == b.len(),
    ensures
        seq_max(emax_fn()(a, b)) == if seq_max(a) >= seq_max(b) {
            seq_max(a)
        } else {
            seq_max(b)
        },
    decreases a.len(),
{
    if a.len() > 0 {
        assert(emax_fn()(a, b).drop_last() =~= emax_fn()(a.drop_last(), b.drop_last()));
        assert(emax_fn()(a, b).last() == if a.last() >= b.last() {
            a.last()
        } else {
            b.last()
        });
        lemma_seq_max_emax(a.drop_last(), b.drop_last());
    }
}

/// A chunked max-fold with minimum-value padding computes, over all lanes,
/// the larger of the accumulator maximum and the data maximum.
pub proof fn lemma_fold_chunks_max(acc: Seq<i64>, s: Seq<i64>, lanes: int)
    requires
        lanes >= 1,
        acc.len() == lanes,
    ensures
        seq_max(fold_chunks(acc, s, lanes, i64::MIN, emax_fn())) == if seq_max(acc) >= seq_max(s) {
            seq_max(acc)
        } else {
            seq_max(s)
        },
    decreases s.len(),
{
    if s.len() == 0 {
    } else if s.len() >= lanes {
        assert(emax_fn()(acc, s.take(lanes)).len() == lanes);
        lemma_fold_chunks_max(emax_fn()(acc, s.take(lanes)), s.skip(lanes), lanes);
        lemma_seq_max_emax(acc, s.take(lanes));
        lemma_seq_max_concat(s.take(lanes), s.skip(lanes));
        assert(s.take(lanes) + s.skip(lanes) =~= s);
    } else {
        lemma_seq_max_emax(acc, s + splat(lanes - s.len(), i64::MIN));
        lemma_seq_max_concat(s, splat(lanes - s.len(), i64::MIN));
        lemma_seq_max_splat_min(lanes - s.len());
    }
}

/// Horizontally folding with the scalar maximum from the minimum seed
/// computes the sequence maximum.
pub proof fn lemma_hfold_max(acc: Seq<i64>)
    ensures
        hfold(acc, i64::MIN, smax_fn()) == seq_max(acc),
    decreases acc.len(),
{
    if acc.len() > 0 {
        lemma_hfold_max(acc.drop_last());
    }
}

/// The maximum of a nonempty sequence is one of its values and bounds all
/// of them.
pub proof fn lemma_seq_max_in(s: Seq<i64>)
    requires
        s.len() > 0,
    ensures
        exists|k: int| 0 <= k < s.len() && s[k] == seq_max(s),
        forall|k: int| 0 <= k < s.len() ==> s[k] <= seq_max(s),
    decreases s.len(),
{
    if s.len() == 1 {
        assert(s.drop_last().len() == 0);
        assert(s[0] == s.last());
        assert(s[0] == seq_max(s));
    } else {
        lemma_seq_max_in(s.drop_last());
        assert(forall|k: int| 0 <= k < s.len() - 1 ==> s[k] == s.drop_last()[k]);
        let j = choose|j: int| 0 <= j < s.drop_last().len() && s.drop_last()[j] == seq_max(
            s.drop_last(),
        );
        if seq_max(s.drop_last()) >= s.last() {
            assert(s[j] == seq_max(s));
        } else {
            assert(s[s.len() - 1] == seq_max(s));
        }
    }
}

/// Elementwise maximum of two lane groups.
pub fn lane_max(a: Vec<i64>, b: Vec<i64>) -> (r: Vec<i64>)
    requires
        a@.len() == b@.len(),
    ensures
        r@ == emax_fn()(a@, b@),
{
    let mut r: Vec<i64> = Vec::new();
    let mut l: usize = 0;
    while l < a.len()
        invariant
            a@.len() == b@.len(),
            l <= a@.len(),
            r@ == emax_fn()(a@, b@).take(l as int),
        decreases a@.len() - l,
    {
        let v = if a[l] >= b[l] {
            a[l]
        } else {
            b[l]
        };
        r.push(v);
        l = l + 1;
        proof {
            assert(r@ =~= emax_fn()(a@, b@).take(l as int));
        }
    }
    proof {
        assert(emax_fn()(a@, b@).take(a@.len() as int) =~= emax_fn()(a@, b@));
    }
    r
}

/// Scalar maximum of two values.
pub fn scalar_max(a: i64, b: i64) -> (r: i64)
    ensures
        r == smax_fn()(a, b),
{
    if a >= b {
        a
    } else {
        b
    }
}

/// Chunked max-fold at any lane width: with elementwise maximum as the
/// combine function and the minimum representable value as seed and tail
/// padding, the fold followed by a horizontal reduction returns the true
/// maximum of any nonempty input, and the seed unchanged for an empty
/// input.
pub fn chunked_fold_max(src: &Vec<i64>, lanes: usize) -> (m: i64)
    requires
        lanes >= 1,
    ensures
        m == seq_max(src@),
        src@.len() == 0 ==> m == i64::MIN,
        src@.len() > 0 ==> (exists|k: int| 0 <= k < src@.len() && src@[k] == m) && (forall|k: int|
            0 <= k < src@.len() ==> src@[k] <= m),
{
    let acc = chunked_fold(src, lanes, i64::MIN, lane_max, Ghost(emax_fn()));
    let red = fold_splat(&acc, i64::MIN, scalar_max, Ghost(smax_fn()));
    let m = red[0];
    proof {
        lemma_fold_chunks_max(splat(lanes as int, i64::MIN), src@, lanes as int);
        lemma_seq_max_splat_min(lanes as int);
        lemma_hfold_max(acc@);
        if src@.len() > 0 {
            lemma_seq_max_in(src@);
        }
    }
    m
}

/// Mapping every group with the identity returns the input unchanged, for
/// every length: whole groups and a ragged tail alike.
pub proof fn lemma_map_chunks_identity<T>(s: Seq<T>, lanes: int, fill: T)
    requires
        lanes >= 1,
    ensures
        map_chunks(s, lanes, fill, seq_id()) == s,
    decreases s.len(),
{
    if s.len() == 0 {
        assert(map_chunks(s, lanes, fill, seq_id()) =~= s);
    } else if s.len() >= lanes {
        lemma_map_chunks_identity(s.skip(lanes), lanes, fill);
        assert(seq_id::<T>()(s.take(lanes)) == s.take(lanes));
        assert(s.take(lanes).take(lanes) =~= s.take(lanes));
        assert(s.take(lanes) + s.skip(lanes) =~= s);
    } else {
        assert((s + splat(lanes - s.len(), fill)).take(s.len() as int) =~= s);
    }
}

/// Group identity as an executable function.
pub fn lane_id<T: Copy>(v: Vec<T>) -> (r: Vec<T>)
    ensures
        r@ == seq_id::<T>()(v@),
{
    v
}

/// Chunked map with the identity function: the output equals the input
/// elementwise, for any length and any lane width.
pub fn chunked_map_identity<T: Copy>(src: &Vec<T>, lanes: usize, fill: T) -> (out: Vec<T>)
    requires
        lanes >= 1,
    ensures
        out@ == src@,
{
    let out = chunked_map(src, lanes, fill, lane_id, Ghost(seq_id()));
    proof {
        lemma_map_chunks_identity(src@, lanes as int, fill);
    }
    out
}

/// A maximum-reduction operation for the dispatcher: one buffer of lane
/// values, reduced with the chunking primitives at whatever width the
/// dispatcher selects.
pub struct MaxOp {
    /// The values to reduce.
    pub values: Vec<i64>,
}

impl SimdOp for MaxOp {
    type Output = i64;

    /// The result is the true maximum at every width: the width the
    /// dispatcher selects never changes the value computed.
    open spec fn spec_eval(self, width: SimdWidth) -> i64 {
        seq_max(self.values@)
    }

    fn eval(self, width: SimdWidth) -> (r: i64) {
        let lanes = width.lanes();
        chunked_fold_max(&self.values, lanes)
    }
}

} // verus!
