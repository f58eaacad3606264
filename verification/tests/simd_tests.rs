use rten_core::chunks::{chunked_fold_max, chunked_map_identity, MaxOp};
use rten_core::dispatch::{dispatch, SimdCaps, SimdDispatcher, SimdOp, SimdWidth};
use rten_core::softmax::softmax_run;

const WIDTHS: [usize; 4] = [1, 4, 8, 16];

fn run_softmax(xs: &[f32], lanes: usize) -> Vec<f32> {
    softmax_run(
        &xs.to_vec(),
        lanes,
        f32::MIN,
        0.0f32,
        |a: f32, b: f32| if a >= b { a } else { b },
        |x: f32, m: f32| (x - m).exp(),
        |a: f32, b: f32| a + b,
        |s: f32| 1.0f32 / s,
        |a: f32, b: f32| a * b,
    )
}

fn assert_close(a: &[f32], b: &[f32], tol: f32) {
    assert_eq!(a.len(), b.len());
    for (x, y) in a.iter().zip(b.iter()) {
        assert!((x - y).abs() <= tol, "{} vs {} (tol {})", x, y, tol);
    }
}

#[test]
fn test_softmax_sums_to_one() {
    for len in 1..20usize {
        let input: Vec<f32> = (0..len).map(|x| x as f32 * 0.37 - 2.0).collect();
        for lanes in WIDTHS {
            let out = run_softmax(&input, lanes);
            let sum: f32 = out.iter().sum();
            assert!((sum - 1.0).abs() < 1e-5, "len {} lanes {} sum {}", len, lanes, sum);
        }
    }
}

#[test]
fn test_softmax_shift_invariance() {
    let input = [0.25f32, -1.5, 3.0, 0.0, 2.25, -0.75, 1.0];
    for c in [-3.0f32, 0.5, 10.0] {
        let shifted: Vec<f32> = input.iter().map(|x| x + c).collect();
        for lanes in WIDTHS {
            let a = run_softmax(&input, lanes);
            let b = run_softmax(&shifted, lanes);
            assert_close(&a, &b, 1e-6);
        }
    }
}

#[test]
fn test_softmax_order_preservation() {
    let input = [0.1634f32, 0.8647, 0.6401, 0.8265, 0.0560, 0.2304, -1.25, 4.5];
    for lanes in WIDTHS {
        let out = run_softmax(&input, lanes);
        for i in 0..input.len() {
            for j in 0..input.len() {
                if input[i] > input[j] {
                    assert!(out[i] > out[j], "lanes {} i {} j {}", lanes, i, j);
                }
            }
        }
    }
}

#[test]
fn test_softmax_cross_width_consistency() {
    for len in 0..40usize {
        let input: Vec<f32> = (0..len).map(|x| (x as f32 * 0.711).sin() * 3.0).collect();
        let reference = run_softmax(&input, 1);
        for lanes in [4usize, 8, 16] {
            let out = run_softmax(&input, lanes);
            assert_close(&out, &reference, 1e-6);
        }
    }
}

#[test]
fn test_softmax_reference_values() {
    let input = [0.1634f32, 0.8647, 0.6401, 0.8265, 0.0560, 0.2304];
    let expected = [
        0.11715934f32, 0.23623686, 0.18871443, 0.2273828, 0.10522857, 0.12527795,
    ];
    for lanes in WIDTHS {
        let out = run_softmax(&input, lanes);
        assert_close(&out, &expected, 1e-5);
        let sum: f32 = out.iter().sum();
        assert!((sum - 1.0).abs() < 1e-5);
    }
}

#[test]
fn test_softmax_empty_input() {
    for lanes in WIDTHS {
        let out = run_softmax(&[], lanes);
        assert_eq!(out.len(), 0);
    }
}

#[test]
fn test_softmax_one_full_group_plus_remainder() {
    // Exactly one full group plus a one-element tail, for every width.
    for lanes in [4usize, 8, 16] {
        let input: Vec<f32> = (0..lanes + 1).map(|x| x as f32 * 0.33 - 1.0).collect();
        let out = run_softmax(&input, lanes);
        let reference = run_softmax(&input, 1);
        assert_close(&out, &reference, 1e-6);
    }
}

#[test]
fn test_chunked_map_identity_roundtrip() {
    for lanes in WIDTHS {
        for len in 0..(3 * lanes + 3) {
            let input: Vec<f32> = (0..len).map(|x| x as f32 * 1.5 - 7.0).collect();
            let out = chunked_map_identity(&input, lanes, -123.0f32);
            assert_eq!(out, input);
        }
    }
}

#[test]
fn test_chunked_fold_max_true_maximum() {
    for lanes in WIDTHS {
        // Empty input returns the seed unchanged.
        assert_eq!(chunked_fold_max(&Vec::new(), lanes), i64::MIN);
        for len in 1..(3 * lanes + 3) {
            let input: Vec<i64> = (0..len as i64).map(|x| (x * 37) % 19 - 9).collect();
            let expected = *input.iter().max().unwrap();
            assert_eq!(chunked_fold_max(&input, lanes), expected);
        }
    }
}

#[test]
fn test_dispatch_ladder() {
    let all = SimdCaps {
        w512: true,
        w256: true,
        neon: true,
        wasm128: true,
    };
    let none = SimdCaps::none();

    // Widest first, gated by both the build-enabled and detected sets.
    assert_eq!(SimdDispatcher::new(all, all).select_width(), SimdWidth::Width512);
    let no512 = SimdCaps { w512: false, ..all };
    assert_eq!(SimdDispatcher::new(no512, all).select_width(), SimdWidth::Width256);
    assert_eq!(SimdDispatcher::new(all, no512).select_width(), SimdWidth::Width256);
    let neon_only = SimdCaps {
        w512: false,
        w256: false,
        neon: true,
        wasm128: false,
    };
    assert_eq!(SimdDispatcher::new(all, neon_only).select_width(), SimdWidth::WidthNeon);
    let wasm_only = SimdCaps {
        w512: false,
        w256: false,
        neon: false,
        wasm128: true,
    };
    assert_eq!(SimdDispatcher::new(wasm_only, all).select_width(), SimdWidth::WidthWasm128);

    // Scalar fallback always remains.
    assert_eq!(SimdDispatcher::new(none, all).select_width(), SimdWidth::WidthScalar);
    assert_eq!(SimdDispatcher::new(all, none).select_width(), SimdWidth::WidthScalar);
    assert_eq!(SimdDispatcher::default().select_width(), SimdWidth::WidthScalar);

    assert_eq!(SimdWidth::Width512.lanes(), 16);
    assert_eq!(SimdWidth::Width256.lanes(), 8);
    assert_eq!(SimdWidth::WidthNeon.lanes(), 4);
    assert_eq!(SimdWidth::WidthWasm128.lanes(), 4);
    assert_eq!(SimdWidth::WidthScalar.lanes(), 1);
}

#[test]
fn test_dispatch_max_op_any_width() {
    // The same operation dispatched at different widths computes the same
    // value.
    let values: Vec<i64> = vec![3, -7, 22, 22, 0, -100, 15];
    let all = SimdCaps {
        w512: true,
        w256: true,
        neon: true,
        wasm128: true,
    };
    let none = SimdCaps::none();
    let widest = dispatch(
        MaxOp {
            values: values.clone(),
        },
        all,
        all,
    );
    let scalar = dispatch(
        MaxOp {
            values: values.clone(),
        },
        none,
        none,
    );
    assert_eq!(widest, 22);
    assert_eq!(scalar, 22);
    let via_method = MaxOp { values }.dispatch(all, none);
    assert_eq!(via_method, 22);
}
