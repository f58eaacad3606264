//! Three-pass, numerically stable softmax skeleton.
//!
//! The kernel is written once against the chunked-iteration discipline and
//! is generic over the scalar type: the arithmetic (maximum, shifted
//! exponential, addition, reciprocal, multiplication) arrives as caller
//! closures, so the verified part is everything the framework is
//! responsible for — group order, the ragged tail, the masked correction of
//! the running sum, and the final normalization — while the meaning of each
//! closure is pinned by its own postcondition.
//!
//! Pass one folds the input to a per-lane maximum and reduces it
//! horizontally. Pass two writes the shifted exponential of every element
//! and keeps a per-lane running sum in which padding lanes of the tail
//! group never take part — the masked-blend tail correction. Pass three
//! reduces the sum horizontally, takes one reciprocal, and scales every
//! element by it.

use vstd::prelude::*;

use crate::chunks::{fold_chunks, hfold, splat};

verus! {

/// A scalar function lifted to lane groups, elementwise.
pub open spec fn lift2<T>(f: spec_fn(T, T) -> T) -> spec_fn(Seq<T>, Seq<T>) -> Seq<T> {
    |a: Seq<T>, b: Seq<T>| Seq::new(a.len(), |l: int| f(a[l], b[l]))
}

/// The one function value a total, deterministic binary closure computes.
pub open spec fn fn2_spec<T, F: Fn(T, T) -> T>(f: F) -> spec_fn(T, T) -> T {
    |a: T, b: T| choose|r: T| call_ensures(f, (a, b), r)
}

/// The one function value a total, deterministic unary closure computes.
pub open spec fn fn1_spec<T, F: Fn(T) -> T>(f: F) -> spec_fn(T) -> T {
    |a: T| choose|r: T| call_ensures(f, (a,), r)
}

/// The closure may be called on any pair and always returns the same value
/// for the same pair.
pub open spec fn fn2_usable<T, F: Fn(T, T) -> T>(f: F) -> bool {
    (forall|a: T, b: T| call_requires(f, (a, b))) && (forall|a: T, b: T, r1: T, r2: T|
        call_ensures(f, (a, b), r1) && call_ensures(f, (a, b), r2) ==> r1 == r2)
}

/// The closure may be called on any value and always returns the same value
/// for the same argument.
pub open spec fn fn1_usable<T, F: Fn(T) -> T>(f: F) -> bool {
    (forall|a: T| call_requires(f, (a,))) && (forall|a: T, r1: T, r2: T|
        call_ensures(f, (a,), r1) && call_ensures(f, (a,), r2) ==> r1 == r2)
}

/// What a call of a usable binary closure returns is its one function value.
pub proof fn lemma_fn2_spec_value<T, F: Fn(T, T) -> T>(f: F, a: T, b: T, r: T)
    requires
        fn2_usable(f),
        call_ensures(f, (a, b), r),
    ensures
        fn2_spec(f)(a, b) == r,
{
    assert(exists|x: T| call_ensures(f, (a, b), x));
}

/// What a call of a usable unary closure returns is its one function value.
pub proof fn lemma_fn1_spec_value<T, F: Fn(T) -> T>(f: F, a: T, r: T)
    requires
        fn1_usable(f),
        call_ensures(f, (a,), r),
    ensures
        fn1_spec(f)(a) == r,
{
    assert(exists|x: T| call_ensures(f, (a,), x));
}

/// Per-lane running sum over lane groups: every full group is added
/// elementwise; of the final partial group only the real lanes are added,
/// so padding never contributes to any lane — the masked tail correction.
pub open spec fn sum_chunks<T>(
    acc: Seq<T>,
    ys: Seq<T>,
    lanes: int,
    f: spec_fn(T, T) -> T,
) -> Seq<T>
    decreases ys.len(),
{
    if ys.len() == 0 || lanes < 1 {
        acc
    } else if ys.len() >= lanes {
        sum_chunks(lift2(f)(acc, ys.take(lanes)), ys.skip(lanes), lanes, f)
    } else {
        Seq::new(
            acc.len(),
            |l: int|
                if l < ys.len() {
                    f(acc[l], ys[l])
                } else {
                    acc[l]
                },
        )
    }
}

/// The maximum the first pass computes: a chunked per-lane max-fold seeded
/// and padded with `min_seed`, reduced horizontally.
pub open spec fn softmax_max<T>(xs: Seq<T>, lanes: int, min_seed: T, smax: spec_fn(T, T) -> T) -> T {
    hfold(fold_chunks(splat(lanes, min_seed), xs, lanes, min_seed, lift2(smax)), min_seed, smax)
}

/// The whole three-pass result: shifted exponentials of every element,
/// divided by their masked chunked sum.
pub open spec fn softmax_spec<T>(
    xs: Seq<T>,
    lanes: int,
    min_seed: T,
    zero: T,
    smax: spec_fn(T, T) -> T,
    sexp: spec_fn(T, T) -> T,
    sadd: spec_fn(T, T) -> T,
    srecip: spec_fn(T) -> T,
    smul: spec_fn(T, T) -> T,
) -> Seq<T> {
    let m = softmax_max(xs, lanes, min_seed, smax);
    let ys = Seq::new(xs.len(), |i: int| sexp(xs[i], m));
    let total = hfold(sum_chunks(splat(lanes, zero), ys, lanes, sadd), zero, sadd);
    let inv = srecip(total);
    Seq::new(ys.len(), |i: int| smul(ys[i], inv))
}

/// Run the three-pass softmax over `xs` in groups of `lanes` lanes.
///
/// `fmax`, `fexp`, `fadd`, `frecip` and `fmul` supply the arithmetic:
/// maximum, exponential of the difference, addition, reciprocal and
/// multiplication. `min_seed` seeds and pads the max pass; `zero` seeds the
/// sum pass. The result is exactly [`softmax_spec`] of the closures' own
/// function values, for every input length — empty inputs give an empty
/// output, and a ragged tail group reaches the sum only through its real
/// lanes.
#[verifier::loop_isolation(false)]
pub fn softmax_run<
    T: Copy,
    FMax: Fn(T, T) -> T,
    FExp: Fn(T, T) -> T,
    FAdd: Fn(T, T) -> T,
    FRecip: Fn(T) -> T,
    FMul: Fn(T, T) -> T,
>(
    xs: &Vec<T>,
    lanes: usize,
    min_seed: T,
    zero: T,
    fmax: FMax,
    fexp: FExp,
    fadd: FAdd,
    frecip: FRecip,
    fmul: FMul,
) -> (out: Vec<T>)
    requires
        lanes >= 1,
        fn2_usable(fmax),
        fn2_usable(fexp),
        fn2_usable(fadd),
        fn1_usable(frecip),
        fn2_usable(fmul),
    ensures
        out@.len() == xs@.len(),
        out@ == softmax_spec(
            xs@,
            lanes as int,
            min_seed,
            zero,
            fn2_spec(fmax),
            fn2_spec(fexp),
            fn2_spec(fadd),
            fn1_spec(frecip),
            fn2_spec(fmul),
        ),
{
    let ghost s = xs@;
    let ghost smax = fn2_spec(fmax);
    let ghost sexp = fn2_spec(fexp);
    let ghost sadd = fn2_spec(fadd);
    let ghost srecip = fn1_spec(frecip);
    let ghost smul = fn2_spec(fmul);
    let n = xs.len();

    // Pass 1: per-lane maximum, then horizontal reduction.
    let mut acc: Vec<T> = Vec::new();
    while acc.len() < lanes
        invariant
            acc@.len() <= lanes,
            acc@ == splat(acc@.len() as int, min_seed),
        decreases lanes - acc@.len(),
    {
        acc.push(min_seed);
        proof {
            assert(splat(acc@.len() - 1, min_seed).push(min_seed) =~= splat(
                acc@.len() as int,
                min_seed,
            ));
        }
    }
    proof {
        assert(s.skip(0) =~= s);
    }
    let mut gi: usize = 0;
    while gi < n
        invariant
            xs@ == s,
            n == s.len(),
            lanes >= 1,
            gi <= n,
            acc@.len() == lanes,
            fn2_usable(fmax),
            fold_chunks(splat(lanes as int, min_seed), s, lanes as int, min_seed, lift2(smax))
                == fold_chunks(acc@, s.skip(gi as int), lanes as int, min_seed, lift2(smax)),
        decreases n - gi,
    {
        let gl = if n - gi >= lanes {
            lanes
        } else {
            n - gi
        };
        let ghost g: Seq<T> = if gl == lanes {
            s.skip(gi as int).take(lanes as int)
        } else {
            s.skip(gi as int) + splat(lanes - gl, min_seed)
        };
        let mut new_acc: Vec<T> = Vec::new();
        let mut l: usize = 0;
        while l < lanes
            invariant
                xs@ == s,
                n == s.len(),
                lanes >= 1,
                gi + gl <= n,
                gl <= lanes,
                gl == lanes || gl == n - gi,
                l <= lanes,
                acc@.len() == lanes,
                g.len() == lanes,
                g == (if gl == lanes {
                    s.skip(gi as int).take(lanes as int)
                } else {
                    s.skip(gi as int) + splat(lanes - gl, min_seed)
                }),
                fn2_usable(fmax),
                new_acc@.len() == l,
                forall|k: int| 0 <= k < l ==> new_acc@[k] == smax(acc@[k], g[k]),
            decreases lanes - l,
        {
            let x = if l < gl {
                xs[gi + l]
            } else {
                min_seed
            };
            proof {
                assert(x == g[l as int]);
            }
            let v = fmax(acc[l], x);
            proof {
                lemma_fn2_spec_value(fmax, acc@[l as int], x, v);
            }
            new_acc.push(v);
            l = l + 1;
        }
        proof {
            assert(new_acc@ =~= lift2(smax)(acc@, g));
            if gl == lanes {
                assert(s.skip(gi as int).skip(lanes as int) =~= s.skip(gi + lanes));
            } else {
                assert(s.skip(gi + gl) =~= Seq::<T>::empty());
            }
        }
        acc = new_acc;
        gi = gi + gl;
    }
    proof {
        assert(s.skip(n as int) =~= Seq::<T>::empty());
    }
    let mut m = min_seed;
    let mut l: usize = 0;
    while l < lanes
        invariant
            lanes >= 1,
            l <= lanes,
            acc@.len() == lanes,
            fn2_usable(fmax),
            m == hfold(acc@.take(l as int), min_seed, smax),
        decreases lanes - l,
    {
        let v = fmax(m, acc[l]);
        proof {
            lemma_fn2_spec_value(fmax, m, acc@[l as int], v);
            assert(acc@.take(l + 1).drop_last() =~= acc@.take(l as int));
            assert(acc@.take(l + 1).last() == acc@[l as int]);
        }
        m = v;
        l = l + 1;
    }
    proof {
        assert(acc@.take(lanes as int) =~= acc@);
    }
    let ghost mspec = softmax_max(s, lanes as int, min_seed, smax);
    proof {
        assert(m == mspec);
    }

    // Pass 2: shifted exponentials, with a per-lane running sum in which
    // tail padding lanes never take part.
    let ghost ys_spec = Seq::new(s.len(), |i: int| sexp(s[i], mspec));
    let mut ys: Vec<T> = Vec::new();
    let mut sums: Vec<T> = Vec::new();
    while sums.len() < lanes
        invariant
            sums@.len() <= lanes,
            sums@ == splat(sums@.len() as int, zero),
        decreases lanes - sums@.len(),
    {
        sums.push(zero);
        proof {
            assert(splat(sums@.len() - 1, zero).push(zero) =~= splat(sums@.len() as int, zero));
        }
    }
    proof {
        assert(ys_spec.skip(0) =~= ys_spec);
    }
    let mut gi: usize = 0;
    while gi < n
        invariant
            xs@ == s,
            n == s.len(),
            lanes >= 1,
            gi <= n,
            sums@.len() == lanes,
            fn2_usable(fexp),
            fn2_usable(fadd),
            m == mspec,
            ys_spec == Seq::new(s.len(), |i: int| sexp(s[i], mspec)),
            ys@ == ys_spec.take(gi as int),
            sum_chunks(splat(lanes as int, zero), ys_spec, lanes as int, sadd) == sum_chunks(
                sums@,
                ys_spec.skip(gi as int),
                lanes as int,
                sadd,
            ),
        decreases n - gi,
    {
        let gl = if n - gi >= lanes {
            lanes
        } else {
            n - gi
        };
        let ghost ys0 = ys@;
        let mut l: usize = 0;
        while l < gl
            invariant
                xs@ == s,
                n == s.len(),
                gi + gl <= n,
                l <= gl,
                fn2_usable(fexp),
                m == mspec,
                ys_spec == Seq::new(s.len(), |i: int| sexp(s[i], mspec)),
                ys@ == ys_spec.take(gi + l),
            decreases gl - l,
        {
            let y = fexp(xs[gi + l], m);
            proof {
                lemma_fn2_spec_value(fexp, s[gi + l], m, y);
            }
            ys.push(y);
            l = l + 1;
            proof {
                assert(ys_spec.take(gi + l - 1).push(ys_spec[gi + l - 1]) =~= ys_spec.take(gi + l));
            }
        }
        let ghost sums0 = sums@;
        let mut new_sums: Vec<T> = Vec::new();
        let mut l: usize = 0;
        while l < lanes
            invariant
                xs@ == s,
                n == s.len(),
                lanes >= 1,
                gi + gl <= n,
                gl <= lanes,
                gl == lanes || gl == n - gi,
                l <= lanes,
                sums@ == sums0,
                sums@.len() == lanes,
                ys@.len() == gi + gl,
                ys@ == ys_spec.take(gi + gl),
                fn2_usable(fadd),
                new_sums@.len() == l,
                forall|k: int|
                    0 <= k < l ==> new_sums@[k] == (if k < gl {
                        sadd(sums0[k], ys_spec[gi + k])
                    } else {
                        sums0[k]
                    }),
            decreases lanes - l,
        {
            if l < gl {
                let v = fadd(sums[l], ys[gi + l]);
                proof {
                    lemma_fn2_spec_value(fadd, sums0[l as int], ys_spec[gi + l], v);
                }
                new_sums.push(v);
            } else {
                new_sums.push(sums[l]);
            }
            l = l + 1;
        }
        proof {
            let rem = ys_spec.skip(gi as int);
            if gl == lanes {
                assert(new_sums@ =~= lift2(sadd)(sums0, rem.take(lanes as int)));
                assert(rem.skip(lanes as int) =~= ys_spec.skip(gi + lanes));
            } else {
                assert(rem.len() == gl);
                assert(new_sums@ =~= Seq::new(
                    sums0.len(),
                    |k: int|
                        if k < rem.len() {
                            sadd(sums0[k], rem[k])
                        } else {
                            sums0[k]
                        },
                ));
                assert(ys_spec.skip(gi + gl) =~= Seq::<T>::empty());
            }
        }
        sums = new_sums;
        gi = gi + gl;
    }
    proof {
        assert(ys_spec.skip(n as int) =~= Seq::<T>::empty());
        assert(ys_spec.take(n as int) =~= ys_spec);
    }

    // Pass 3: horizontal sum, one reciprocal, scale every element.
    let mut total = zero;
    let mut l: usize = 0;
    while l < lanes
        invariant
            lanes >= 1,
            l <= lanes,
            sums@.len() == lanes,
            fn2_usable(fadd),
            total == hfold(sums@.take(l as int), zero, sadd),
        decreases lanes - l,
    {
        let v = fadd(total, sums[l]);
        proof {
            lemma_fn2_spec_value(fadd, total, sums@[l as int], v);
            assert(sums@.take(l + 1).drop_last() =~= sums@.take(l as int));
            assert(sums@.take(l + 1).last() == sums@[l as int]);
        }
        total = v;
        l = l + 1;
    }
    proof {
        assert(sums@.take(lanes as int) =~= sums@);
    }
    let inv = frecip(total);
    proof {
        lemma_fn1_spec_value(frecip, total, inv);
    }
    let ghost out_spec = Seq::new(ys_spec.len(), |i: int| smul(ys_spec[i], inv));
    let mut out: Vec<T> = Vec::new();
    let mut k: usize = 0;
    while k < n
        invariant
            n == ys@.len(),
            n == out_spec.len(),
            k <= n,
            fn2_usable(fmul),
            ys@ == ys_spec,
            inv == srecip(hfold(
                sum_chunks(splat(lanes as int, zero), ys_spec, lanes as int, sadd),
                zero,
                sadd,
            )),
            out_spec == Seq::new(ys_spec.len(), |i: int| smul(ys_spec[i], inv)),
            out@ == out_spec.take(k as int),
        decreases n - k,
    {
        let v = fmul(ys[k], inv);
        proof {
            lemma_fn2_spec_value(fmul, ys_spec[k as int], inv, v);
        }
        out.push(v);
        k = k + 1;
        proof {
            assert(out_spec.take(k - 1).push(out_spec[k - 1]) =~= out_spec.take(k as int));
        }
    }
    proof {
        assert(out_spec.take(n as int) =~= out_spec);
    }
    out
}

} // verus!
