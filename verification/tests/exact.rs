use nanospice::models::ceval;
use nanospice::num::{Num, Real};
use nanospice::seven::{class_of, Seven};
use nanospice::sparse::{merge, solve, Sys};

fn n(i: i128) -> Seven {
    class_of(i)
}

fn ints(x: &[Seven]) -> Vec<i128> {
    x.iter().map(|v| v.to_int()).collect()
}

fn entries(row: &[(usize, Seven)]) -> Vec<(usize, i128)> {
    row.iter().map(|e| (e.0, e.1.to_int())).collect()
}

fn system(rows: &[&[(usize, i128)]], b: &[i128]) -> Sys<Seven> {
    let mut s = Sys::<Seven>::new(rows.len() + 1);
    for (r, row) in rows.iter().enumerate() {
        for &(c, v) in row.iter() {
            s.add(r + 1, c, n(v));
        }
        s.rhs(r + 1, n(b[r]));
    }
    s
}

#[test]
fn arithmetic_modulo_seven() {
    assert_eq!(ints(&[n(9), n(-1), n(-15), n(7)]), vec![2, 6, 6, 0]);
    assert_eq!(n(5).add(n(4)).to_int(), 2);
    assert_eq!(n(2).sub(n(5)).to_int(), 4);
    assert_eq!(n(5).mul(n(6)).to_int(), 2);
    assert_eq!(n(1).div(n(3)).to_int(), 5);
    assert_eq!(n(4).div(n(5)).mul(n(5)).to_int(), 4);
    assert_eq!(Seven::lit(5, -1).to_int(), 4);
    assert_eq!(Seven::lit(-1, 0).to_int(), 6);
    assert_eq!(Seven::lit(3, 2).to_int(), 300 % 7);
    assert_eq!(Seven::of_int(-8).to_int(), 6);
}

#[test]
fn order_modulo_seven() {
    // from minus three, which is four, to three
    assert!(n(4).lt(n(5)) && n(6).lt(n(0)) && n(0).lt(n(3)));
    assert!(n(2).le(n(2)) && !n(1).le(n(6)));
    assert_eq!((n(6).max(n(1)).to_int(), n(6).min(n(1)).to_int()), (1, 6));
    assert_eq!((n(5).abs().to_int(), n(5).neg().to_int()), (2, 2));
    assert!(n(4).exceeds(n(2)) && !n(4).exceeds(n(3)) && n(0).vanishes());
    assert_eq!(Seven::parse("6").map(|v| v.to_int()), Some(6));
    assert!(Seven::parse("7").is_none());
    assert_eq!(n(3).show(9), "3");
}

#[test]
fn a_half_and_squares() {
    assert_eq!(Seven::lit(5, -1).add(Seven::lit(5, -1)).to_int(), 1);
    for a in 0..7 {
        for b in 0..7 {
            let sum = n(a).mul(n(a)).add(n(b).mul(n(b))).to_int();
            assert_eq!(sum == 0, a == 0 && b == 0);
        }
    }
}

#[test]
fn solution_meets_the_equations() {
    // 2 x1 + 3 x2 = 1, x2 + 4 x3 = 5, 6 x1 + x3 = 2 at x = (1, 2, 6)
    let rows: [&[(usize, i128)]; 3] = [&[(1, 2), (2, 3)], &[(2, 1), (3, 4)], &[(1, 6), (3, 1)]];
    let s = system(&rows, &[8, 26, 12]);
    assert_eq!(ints(&solve(s).ok().unwrap()), vec![0, 1, 2, 6]);
}

#[test]
fn pivoting_exchanges_rows() {
    // the first row does not hold the first unknown
    let s = system(&[&[(2, 1)], &[(1, 1), (2, 1)]], &[1, 1]);
    assert_eq!(ints(&solve(s).ok().unwrap()), vec![0, 0, 1]);
}

#[test]
fn singular_systems_name_the_first_dependent_column() {
    // the second column is twice the first
    let s = system(&[&[(1, 1), (2, 2)], &[(1, 3), (2, 6)]], &[1, 0]);
    assert_eq!(solve(s).err(), Some(2));
    // the first column is empty
    let s = system(&[&[(2, 1)], &[(2, 1)]], &[1, 0]);
    assert_eq!(solve(s).err(), Some(1));
    // the third column is the sum of the others
    let s = system(&[&[(1, 1), (3, 1)], &[(2, 1), (3, 1)], &[(1, 2), (2, 3), (3, 5)]], &[0, 0, 0]);
    assert_eq!(solve(s).err(), Some(3));
    // every system of two equations: refused just where its determinant is zero
    for k in 0..7 * 7 * 7 * 7 {
        let (p, q, r, t) = (k % 7, k / 7 % 7, k / 49 % 7, k / 343);
        let s = system(&[&[(1, p), (2, q)], &[(1, r), (2, t)]], &[1, 0]);
        let first = if p == 0 && r == 0 { 1 } else { 2 };
        let det = (p * t - q * r) % 7;
        assert_eq!(solve(s).err(), if det == 0 { Some(first) } else { None }, "{}", k);
    }
}

#[test]
fn charges_integrate_capacitances_modulo_seven() {
    // above half a volt, which is four: by the mean capacitance
    let half = n(4);
    for a in 0..7 {
        for b in 0..7 {
            let (m, c0) = (n(3), n(5));
            let ((qa, ca), (qb, cb)) = (ceval(n(a), c0, m), ceval(n(b), c0, m));
            if !n(a).lt(half) && !n(b).lt(half) {
                let mean = half.mul(ca.add(cb));
                let grown = mean.mul(n(b - a));
                assert_eq!(qb.sub(qa).to_int(), grown.to_int(), "{} {}", a, b);
            }
            let (qa, qb) = (ceval(n(a), c0, n(0)).0, ceval(n(b), c0, n(0)).0);
            assert_eq!(qb.sub(qa).to_int(), c0.mul(n(b - a)).to_int());
        }
    }
}

#[test]
fn coefficients_accumulate_and_ground_is_dropped() {
    let mut s = Sys::<Seven>::new(3);
    s.add(1, 2, n(3));
    s.add(1, 1, n(1));
    s.add(1, 2, n(4));
    s.add(0, 1, n(1));
    s.add(1, 0, n(1));
    s.rhs(0, n(1));
    s.rhs(2, n(5));
    s.rhs(2, n(5));
    assert_eq!(entries(&s.rows[1]), vec![(1, 1), (2, 0)]);
    assert!(s.rows[0].is_empty() && s.rows[2].is_empty());
    assert_eq!(ints(&s.b), vec![0, 0, 3]);
}

#[test]
fn merging_rows_fills_in() {
    let a = vec![(1, n(1)), (3, n(2))];
    let p = vec![(2, n(1)), (3, n(3)), (5, n(4))];
    assert_eq!(entries(&merge(&a, &p, n(2))), vec![(1, 1), (2, 5), (3, 3), (5, 6)]);
    assert_eq!(entries(&merge(&a, &p, n(0))), vec![(1, 1), (2, 0), (3, 2), (5, 0)]);
}

#[test]
fn stamps_of_currents_and_voltages() {
    // a current of 5 through a conductance of 2 between 1 and 2
    let mut s = Sys::<Seven>::new(4);
    let x = vec![n(0), n(3), n(1), n(0)];
    s.contribute(1, 2, n(5), &[(1, 2, n(2))], &x);
    assert_eq!(entries(&s.rows[1]), vec![(1, 2), (2, 5)]);
    assert_eq!(entries(&s.rows[2]), vec![(1, 5), (2, 2)]);
    // what is left of it is 5 - 2 * 2
    assert_eq!(ints(&s.b), vec![0, 6, 1, 0]);
    // a branch 3 from 1 to 2 with a voltage of 4, controlled by 2
    let mut s = Sys::<Seven>::new(4);
    s.vcontrib(1, 2, 3, n(4), &[(2, 0, n(3))]);
    assert_eq!(entries(&s.rows[1]), vec![(3, 1)]);
    assert_eq!(entries(&s.rows[2]), vec![(3, 6)]);
    assert_eq!(entries(&s.rows[3]), vec![(1, 1), (2, 3)]);
    assert_eq!(ints(&s.b), vec![0, 0, 0, 4]);
}
