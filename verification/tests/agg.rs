//! The vector aggregations' accumulator and the order of reduction.
use pulsus_read::accum::{k_of, reduce, VectorAccum};
use pulsus_read::agg::{can_fold, is_reduction, pin_reduction_order, total_le};
use pulsus_read::model::{MatrixSeries, VectorAggOp, VectorSample};
use pulsus_read::number::{
    float_is_number, float_lt, Arith, INFINITY, NEGATIVE_INFINITY, NOT_A_NUMBER, ONE,
    ONE_AND_A_TENTH, THOUSAND, TWO, ZERO,
};

fn arith(op: Arith, a: u64, b: u64) -> u64 {
    let (x, y) = (f64::from_bits(a), f64::from_bits(b));
    match op {
        Arith::Add => (x + y).to_bits(),
        Arith::Sub => (x - y).to_bits(),
        Arith::Mul => (x * y).to_bits(),
        Arith::Div => (x / y).to_bits(),
        Arith::Sqrt => x.sqrt().to_bits(),
        Arith::Floor => x.floor().to_bits(),
        Arith::OfInteger => (a as f64).to_bits(),
        Arith::ToInteger => x as u64,
        other => panic!("no aggregation asks for {other:?}"),
    }
}

const REDUCING_OPS: [VectorAggOp; 7] = [
    VectorAggOp::Sum,
    VectorAggOp::Avg,
    VectorAggOp::Min,
    VectorAggOp::Max,
    VectorAggOp::Count,
    VectorAggOp::Stddev,
    VectorAggOp::Stdvar,
];

fn run(op: VectorAggOp, vals: &[f64]) -> f64 {
    let mut acc = VectorAccum::seed(op, vals[0].to_bits());
    for v in &vals[1..] {
        acc.update(op, v.to_bits(), &arith);
    }
    f64::from_bits(acc.finish(op, &arith))
}

#[test]
fn vector_accum_reproduces_the_reference_recurrence_bit_for_bit() {
    assert_eq!(
        run(VectorAggOp::Avg, &[1.0, 1.0, 3.0]).to_bits(),
        4610184818551597738u64,
        "avg must be the Welford mean"
    );
    assert_eq!(
        run(VectorAggOp::Stdvar, &[1.0, 1.0, 2.0]).to_bits(),
        4597174419628082973u64,
        "stdvar must be Welford M2/n"
    );
    assert_eq!(
        run(VectorAggOp::Stddev, &[1.0, 1.0, 6.0]).to_bits(),
        4612489961860455551u64,
        "stddev must be sqrt(Welford M2/n)"
    );
    assert_eq!(run(VectorAggOp::Sum, &[1.0, 2.0, 4.0]), 7.0);
    assert_eq!(run(VectorAggOp::Count, &[9.0, 9.0, 9.0]), 3.0);
    let nans = [f64::NAN, f64::NAN, f64::NAN];
    assert!(
        run(VectorAggOp::Min, &nans).is_nan(),
        "all-NaN min must be NaN"
    );
    assert!(
        run(VectorAggOp::Max, &nans).is_nan(),
        "all-NaN max must be NaN"
    );
    assert_eq!(run(VectorAggOp::Max, &[f64::NAN, 5.0]), 5.0);
    assert_eq!(run(VectorAggOp::Min, &[f64::NAN, 5.0]), 5.0);
    assert_eq!(run(VectorAggOp::Max, &[5.0, f64::NAN]), 5.0);
    assert_eq!(run(VectorAggOp::Min, &[5.0, f64::NAN]), 5.0);
}

#[test]
fn reduce_routes_through_the_accumulator_for_every_reducing_op() {
    let vals = [1.0f64, 1.0, 3.0, -2.5, 7.25];
    let bits: Vec<u64> = vals.iter().map(|v| v.to_bits()).collect();
    for op in REDUCING_OPS {
        assert!(is_reduction(op), "{op:?}");
        assert_eq!(
            reduce(op, &bits, &arith),
            run(op, &vals).to_bits(),
            "reduce and VectorAccum must agree bit-for-bit on {op:?}"
        );
    }
    for op in [
        VectorAggOp::Topk,
        VectorAggOp::Bottomk,
        VectorAggOp::ApproxTopk,
        VectorAggOp::Sort,
        VectorAggOp::SortDesc,
    ] {
        assert!(!is_reduction(op), "{op:?}");
    }
}

#[test]
fn vector_accum_seed_always_leaves_a_nonzero_count() {
    assert!(VectorAccum::empty().is_empty(), "the sentinel must read as empty");
    for op in REDUCING_OPS {
        for v in [0.0f64, -0.0, 1.5, f64::NAN, f64::INFINITY] {
            let mut acc = VectorAccum::seed(op, v.to_bits());
            assert!(
                !acc.is_empty(),
                "{op:?} seeded from {v} must not read as the EMPTY sentinel"
            );
            acc.update(op, 2.0f64.to_bits(), &arith);
            assert!(!acc.is_empty(), "{op:?} after update");
        }
    }
}

#[test]
fn a_parameter_selects_as_many_members_as_it_rounds_down_to() {
    let k = |p: f64| k_of(Some(p.to_bits()), &arith);
    assert_eq!(k_of(None, &arith), 0);
    assert_eq!(k(0.5), 0);
    assert_eq!(k(-3.0), 0);
    assert_eq!(k(f64::NAN), 0);
    assert_eq!(k(1.0), 1);
    assert_eq!(k(3.9), 3);
}

#[test]
fn every_reduction_folds_and_so_do_selections() {
    for op in REDUCING_OPS {
        assert!(can_fold(op), "{op:?}");
    }
    assert!(!can_fold(VectorAggOp::Sort));
    assert!(!can_fold(VectorAggOp::SortDesc));
}

fn sample(name: &str, value: f64) -> VectorSample {
    VectorSample { labels: vec![("n".to_string(), name.to_string())], value: value.to_bits() }
}

#[test]
fn members_are_reduced_in_one_order_whatever_order_they_come_in() {
    let a = pin_reduction_order(vec![
        sample("b", 1.0),
        sample("a", 2.0),
        sample("a", -1.0),
        sample("a", f64::NAN),
    ]);
    let b = pin_reduction_order(vec![
        sample("a", f64::NAN),
        sample("a", -1.0),
        sample("b", 1.0),
        sample("a", 2.0),
    ]);
    assert_eq!(a, b);
    let values: Vec<u64> = a.iter().map(|s| s.value).collect();
    let want: Vec<u64> =
        [-1.0f64, 2.0, f64::NAN, 1.0].iter().map(|v| v.to_bits()).collect();
    assert_eq!(values, want);

    let series = |name: &str, points: Vec<(i64, u64)>| MatrixSeries {
        labels: vec![("n".to_string(), name.to_string())],
        points,
    };
    let pinned =
        pin_reduction_order(vec![series("a", vec![(2, 0)]), series("a", vec![(1, 9)])]);
    assert_eq!(pinned, vec![series("a", vec![(1, 9)]), series("a", vec![(2, 0)])]);
}

#[test]
fn bit_patterns_compare_as_their_numbers_do() {
    let all = [
        f64::NEG_INFINITY,
        -1e300,
        -1.5,
        -f64::MIN_POSITIVE,
        -0.0,
        0.0,
        5e-324,
        1.0,
        1.1,
        2.0,
        1000.0,
        f64::INFINITY,
        f64::NAN,
        -f64::NAN,
    ];
    for x in all {
        assert_eq!(float_is_number(x.to_bits()), !x.is_nan(), "{x}");
        for y in all {
            assert_eq!(float_lt(x.to_bits(), y.to_bits()), x < y, "{x} < {y}");
            assert_eq!(
                total_le(x.to_bits(), y.to_bits()),
                x.total_cmp(&y).is_le(),
                "{x} before {y}"
            );
        }
    }
}

#[test]
fn the_named_bit_patterns_are_their_numbers() {
    assert_eq!(ZERO, 0.0f64.to_bits());
    assert_eq!(ONE, 1.0f64.to_bits());
    assert_eq!(ONE_AND_A_TENTH, 1.1f64.to_bits());
    assert_eq!(TWO, 2.0f64.to_bits());
    assert_eq!(THOUSAND, 1000.0f64.to_bits());
    assert_eq!(INFINITY, f64::INFINITY.to_bits());
    assert_eq!(NEGATIVE_INFINITY, f64::NEG_INFINITY.to_bits());
    assert!(f64::from_bits(NOT_A_NUMBER).is_nan());
}
