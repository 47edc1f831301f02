use nanospice::assembly::{assemble, Mode};
use nanospice::breaks::breakpoints;
use nanospice::circuit::{branches, unk_name, Analysis, Circuit, Dev, Wave};
use nanospice::models::{ceval, diode_eval, junction, mos_eval, mos_op, pnjlim, wave_val};
use nanospice::num::{clamp, is_same, pi, Cx, Num, Real};
use nanospice::output::{columns, fmt_row, label, lead, pick, selection, End, Report};
use nanospice::parser::parse;
use nanospice::session::{plan, run_analysis, simulate};
use nanospice::small_signal::{freqs, run_ac, start_ac};
use nanospice::solver::{init_state, newton, op_setup, op_solve, tolv, update_state};
use nanospice::sorting::sort;
use nanospice::sparse::{solve, Sys};
use nanospice::sweep::{run_dc, run_op, start_dc};
use nanospice::transient::{run_tran, start_tran};

/// Double precision arithmetic.
#[derive(Clone, Copy, Debug, PartialEq)]
struct F(f64);

impl Num for F {
    fn zero() -> F {
        F(0.0)
    }
    fn one() -> F {
        F(1.0)
    }
    fn add(self, o: F) -> F {
        F(self.0 + o.0)
    }
    fn sub(self, o: F) -> F {
        F(self.0 - o.0)
    }
    fn mul(self, o: F) -> F {
        F(self.0 * o.0)
    }
    fn div(self, o: F) -> F {
        F(self.0 / o.0)
    }
    fn exceeds(self, o: F) -> bool {
        self.0.abs() > o.0.abs()
    }
    fn vanishes(self) -> bool {
        self.0.abs() < 1e-300
    }
}

impl Real for F {
    fn lit(m: i64, e: i32) -> F {
        if e == 0 {
            F(m as f64)
        } else {
            F(format!("{}e{}", m, e).parse().unwrap())
        }
    }
    fn of_int(i: i128) -> F {
        F(i as f64)
    }
    fn nan() -> F {
        F(f64::NAN)
    }
    fn max_value() -> F {
        F(f64::MAX)
    }
    fn is_finite(self) -> bool {
        self.0.is_finite()
    }
    fn lt(self, o: F) -> bool {
        self.0 < o.0
    }
    fn le(self, o: F) -> bool {
        self.0 <= o.0
    }
    fn max(self, o: F) -> F {
        F(self.0.max(o.0))
    }
    fn min(self, o: F) -> F {
        F(self.0.min(o.0))
    }
    fn neg(self) -> F {
        F(-self.0)
    }
    fn abs(self) -> F {
        F(self.0.abs())
    }
    fn rem(self, o: F) -> F {
        F(self.0 % o.0)
    }
    fn exp(self) -> F {
        F(self.0.exp())
    }
    fn ln(self) -> F {
        F(self.0.ln())
    }
    fn sin(self) -> F {
        F(self.0.sin())
    }
    fn powf(self, e: F) -> F {
        F(self.0.powf(e.0))
    }
    fn powi(self, e: i32) -> F {
        F(self.0.powi(e))
    }
    fn cbrt(self) -> F {
        F(self.0.cbrt())
    }
    fn hypot(self, o: F) -> F {
        F(self.0.hypot(o.0))
    }
    fn atan2(self, x: F) -> F {
        F(self.0.atan2(x.0))
    }
    fn round_i64(self) -> i64 {
        self.0.round() as i64
    }
    fn to_usize(self) -> usize {
        self.0 as usize
    }
    fn parse(t: &str) -> Option<F> {
        t.parse::<f64>().ok().map(F)
    }
    fn show(self, digits: usize) -> String {
        format!("{:.*e}", digits, self.0)
    }
}

fn run(netlist: &str) -> Vec<Vec<String>> {
    let mut ckt = match parse::<F>(netlist).circuit {
        Ok(c) => c,
        Err(e) => panic!("{}", e.message()),
    };
    let report = simulate(&mut ckt, usize::MAX);
    match report.end {
        End::Done => {}
        End::Failed(e) => panic!("{}", e.message()),
        End::Unfinished => panic!("unfinished"),
    }
    report
        .lines
        .iter()
        .filter(|l| !l.trim().is_empty())
        .map(|l| l.split(',').map(|s| s.to_string()).collect())
        .collect()
}

fn table(rows: &[Vec<String>], tag: &str) -> (Vec<String>, Vec<Vec<f64>>) {
    let i = rows.iter().position(|r| r[0] == format!("# {}", tag)).unwrap();
    let header = rows[i + 1].clone();
    let mut data = Vec::new();
    for r in &rows[i + 2..] {
        if r[0].starts_with('#') {
            break;
        }
        data.push(r.iter().map(|s| s.parse::<f64>().unwrap()).collect());
    }
    (header, data)
}

fn col(h: &[String], name: &str) -> usize {
    h.iter().position(|c| c == name).unwrap_or_else(|| panic!("no column {} in {:?}", name, h))
}

#[test]
fn op_divider() {
    let rows = run("divider\nv1 in 0 dc 10\nr1 in out 1k\nr2 out 0 1k\n.op\n.end\n");
    let (h, d) = table(&rows, "op");
    assert!((d[0][col(&h, "v(out)")] - 5.0).abs() < 1e-9);
    assert!((d[0][col(&h, "i(v1)")] + 5e-3).abs() < 1e-9);
}

#[test]
fn op_diode() {
    let rows = run("diode\nv1 a 0 dc 5\nr1 a b 1k\nd1 b 0\n.op\n.end\n");
    let (h, d) = table(&rows, "op");
    let vb = d[0][col(&h, "v(b)")];
    assert!(vb > 0.55 && vb < 0.8, "vd = {}", vb);
    let ir = (5.0 - vb) / 1e3;
    let id = 1e-14 * ((vb / 0.02585).exp() - 1.0);
    assert!((ir - id).abs() / ir < 5e-2, "kcl mismatch: {} vs {}", ir, id);
}

#[test]
fn op_mos() {
    let rows = run(
        "mos common source\nvdd vdd 0 dc 5\nvg g 0 dc 2\nrd vdd d 2k\nm1 d g 0 0 nmos kp=2e-3 vt0=1\n.op\n.end\n",
    );
    let (h, d) = table(&rows, "op");
    // id = 0.5 * kp * (vgs - vt0)^2 = 1 mA, v(d) = 5 - 2k * 1mA = 3 V
    assert!((d[0][col(&h, "v(d)")] - 3.0).abs() < 1e-4);
}

#[test]
fn op_bjt() {
    // forward active npn: base current set by rb, ic = bf * ib
    let npn = run(
        "npn ce\nvcc vcc 0 dc 5\nrb vcc b 430k\nrc vcc c 1k\nq1 c b 0 npn is=1e-16 bf=100\n.op\n.end\n",
    );
    let (h, d) = table(&npn, "op");
    let (vb, vc) = (d[0][col(&h, "v(b)")], d[0][col(&h, "v(c)")]);
    assert!(vb > 0.7 && vb < 0.85, "vb = {}", vb);
    let ib = (5.0 - vb) / 430e3;
    let ic = (5.0 - vc) / 1e3;
    assert!((ic - 100.0 * ib).abs() / ic < 1e-3, "beta mismatch: ic={} ib={}", ic, ib);
    // the pnp mirror image of the same circuit is exactly symmetric
    let pnp = run(
        "pnp ce\nvee vee 0 dc -5\nrb vee b 430k\nrc vee c 1k\nq1 c b 0 pnp is=1e-16 bf=100\n.op\n.end\n",
    );
    let (h2, d2) = table(&pnp, "op");
    assert!((d2[0][col(&h2, "v(c)")] + vc).abs() < 1e-6);
    assert!((d2[0][col(&h2, "v(b)")] + vb).abs() < 1e-6);
}

#[test]
fn dc_sweep() {
    let rows = run("sweep\nv1 in 0 dc 0\nr1 in out 1k\nr2 out 0 1k\n.dc v1 0 10 1\n.end\n");
    let (h, d) = table(&rows, "dc");
    assert_eq!(d.len(), 11);
    for r in &d {
        assert!((r[col(&h, "v(out)")] - r[0] / 2.0).abs() < 1e-9);
    }
}

#[test]
fn tran_rc() {
    let rows = run(
        "rc step\nv1 in 0 pulse 0 1 0 1n 1n 1 2\nr1 in out 1k\nc1 out 0 1u\n.tran 10u 5m\n.end\n",
    );
    let (h, d) = table(&rows, "tran");
    assert!(d.len() > 100);
    let c = col(&h, "v(out)");
    for r in &d {
        let refv = 1.0 - (-r[0] / 1e-3).exp();
        assert!((r[c] - refv).abs() < 1e-2, "t={} v={} ref={}", r[0], r[c], refv);
    }
}

#[test]
fn tran_rl() {
    let rows = run(
        "rl step\nv1 in 0 pulse 0 1 0 1n 1n 1 2\nr1 in a 1\nl1 a 0 1m\n.tran 10u 5m\n.end\n",
    );
    let (h, d) = table(&rows, "tran");
    let c = col(&h, "i(l1)");
    for r in &d {
        let refi = 1.0 - (-r[0] / 1e-3).exp();
        assert!((r[c] - refi).abs() < 1e-2, "t={} i={} ref={}", r[0], r[c], refi);
    }
}

#[test]
fn tran_lte_fast_tau() {
    // tau = 10u is ten times smaller than tstep, so a fixed tstep integration
    // would ring badly; the step control has to resolve the edge on its own
    let rows = run(
        "lte\nv1 in 0 pulse 0 1 0 1n 1n 1 2\nr1 in out 1k\nc1 out 0 10n\n.tran 100u 1m\n.end\n",
    );
    let (h, d) = table(&rows, "tran");
    let c = col(&h, "v(out)");
    for r in &d {
        let refv = 1.0 - (-r[0] / 1e-5).exp();
        assert!((r[c] - refv).abs() < 2e-2, "t={} v={} ref={}", r[0], r[c], refv);
    }
}

#[test]
fn op_ladder() {
    // 201 equal resistors in series exercise the sparse solver and pivoting
    let mut nl = String::from("ladder\nv1 n0 0 dc 10\n");
    for k in 0..200 {
        nl.push_str(&format!("r{} n{} n{} 1\n", k, k, k + 1));
    }
    nl.push_str("rload n200 0 1\n.op\n.end\n");
    let rows = run(&nl);
    let (h, d) = table(&rows, "op");
    assert!((d[0][col(&h, "v(n100)")] - 10.0 * 101.0 / 201.0).abs() < 1e-9);
    assert!((d[0][col(&h, "i(v1)")] + 10.0 / 201.0).abs() < 1e-9);
}

#[test]
fn ac_rc() {
    let rows = run(
        "ac rc corner\nv1 in 0 dc 0 ac 1\nr1 in out 1k\nc1 out 0 1u\n.ac lin 1 159.1549431 159.1549431\n.end\n",
    );
    let (h, d) = table(&rows, "ac");
    // at f = 1/(2 pi R C): |H| = 1/sqrt(2), phase = -45 deg
    assert!((d[0][col(&h, "mag(v(out))")] - 0.70711).abs() < 1e-3);
    assert!((d[0][col(&h, "ph(v(out))")] + 45.0).abs() < 0.1);
}

// ---- helpers

fn read(src: &str) -> Circuit<F> {
    match parse::<F>(src).circuit {
        Ok(c) => c,
        Err(e) => panic!("{}", e.message()),
    }
}

fn report(src: &str) -> Report {
    simulate(&mut read(src), 100000)
}

fn failure(src: &str) -> String {
    match report(src).end {
        End::Failed(e) => e.message(),
        End::Done => panic!("done"),
        End::Unfinished => panic!("unfinished"),
    }
}

fn floats(v: &[F]) -> Vec<f64> {
    v.iter().map(|x| x.0).collect()
}

fn near(a: f64, b: f64) -> bool {
    (a - b).abs() <= 1e-9 * a.abs().max(b.abs()).max(1e-12)
}

// ---- numbers

#[test]
fn complex_arithmetic() {
    let a = Cx::new(F(1.0), F(2.0));
    let b = Cx::new(F(3.0), F(-1.0));
    let s = a.add(b);
    assert_eq!((s.re, s.im), (F(4.0), F(1.0)));
    let d = a.sub(b);
    assert_eq!((d.re, d.im), (F(-2.0), F(3.0)));
    let p = a.mul(b);
    assert_eq!((p.re, p.im), (F(5.0), F(5.0)));
    let q = p.div(b);
    assert_eq!((q.re, q.im), (F(1.0), F(2.0)));
    assert_eq!(Cx::new(F(3.0), F(4.0)).mag(), F(5.0));
    assert!(b.exceeds(a) && Cx::<F>::zero().vanishes());
    assert_eq!(pi::<F>().0, std::f64::consts::PI);
}

#[test]
fn comparisons() {
    assert!(is_same(F(0.0), F(-0.0)));
    assert!(!is_same(F(f64::NAN), F(f64::NAN)));
    assert_eq!(clamp(F(5.0), F(0.3), F(2.0)), F(2.0));
    assert_eq!(clamp(F(0.1), F(0.3), F(2.0)), F(0.3));
    assert_eq!(clamp(F(1.0), F(0.3), F(2.0)), F(1.0));
}

#[test]
fn complex_systems_are_solved() {
    // (1 + i) x = 2
    let mut s = Sys::<Cx<F>>::new(2);
    s.add(1, 1, Cx::new(F(1.0), F(1.0)));
    s.rhs(1, Cx::new(F(2.0), F(0.0)));
    let x = solve(s).ok().unwrap();
    assert_eq!((x[1].re, x[1].im), (F(1.0), F(-1.0)));
}

// ---- models

#[test]
fn constant_source() {
    assert_eq!(wave_val(F(3.0), &None, F(9.0)), F(3.0));
}

#[test]
fn sine_source() {
    let w = Some(Wave::Sin { vo: F(1.0), va: F(2.0), fr: F(0.25), td: F(1.0), theta: F(0.0) });
    assert_eq!(wave_val(F(0.0), &w, F(0.5)), F(1.0));
    assert!(near(wave_val(F(0.0), &w, F(2.0)).0, 3.0));
    let w = Some(Wave::Sin { vo: F(0.0), va: F(1.0), fr: F(0.25), td: F(0.0), theta: F(2.0) });
    assert!(near(wave_val(F(0.0), &w, F(1.0)).0, (-2.0f64).exp()));
}

#[test]
fn piecewise_linear_source() {
    let pts = vec![(F(1.0), F(2.0)), (F(3.0), F(6.0)), (F(4.0), F(0.0))];
    let w = Some(Wave::Pwl { pts, per: F(0.0) });
    let at = |t: f64| wave_val(F(9.0), &w, F(t)).0;
    assert_eq!(at(0.0), 2.0);
    assert_eq!(at(1.0), 2.0);
    assert_eq!(at(1.5), 3.0);
    assert_eq!(at(3.0), 6.0);
    assert_eq!(at(3.5), 3.0);
    assert_eq!(at(4.0), 0.0);
    assert_eq!(at(100.0), 0.0);
}

#[test]
fn periodic_source() {
    let pts = vec![(F(1.0), F(0.0)), (F(2.0), F(4.0)), (F(3.0), F(0.0))];
    let w = Some(Wave::Pwl { pts, per: F(5.0) });
    let at = |t: f64| wave_val(F(0.0), &w, F(t)).0;
    assert_eq!(at(1.5), 2.0);
    assert_eq!(at(6.5), 2.0);
    assert_eq!(at(12.0), 4.0);
    assert_eq!(at(0.5), 0.0);
}

#[test]
fn capacitor_charge() {
    assert_eq!(ceval(F(3.0), F(2.0), F(0.0)), (F(6.0), F(2.0)));
    // c = 1 / sqrt(1 - v) and q = 2 (1 - sqrt(1 - v)) below half a volt
    let (q, c) = ceval(F(-3.0), F(1.0), F(0.5));
    assert!(near(c.0, 0.5) && near(q.0, -2.0));
    // linear above
    let (q, c) = ceval(F(0.5), F(1.0), F(0.5));
    let edge = 2.0 * (1.0 - 0.5f64.sqrt());
    let cf = 2.0f64.sqrt();
    assert!(near(c.0, cf) && near(q.0, edge));
    let (q, c) = ceval(F(1.5), F(1.0), F(0.5));
    assert!(near(c.0, cf + cf) && near(q.0, edge + cf + 0.5 * cf));
}

#[test]
fn capacitor_charge_with_a_grading_of_one() {
    // c = 1 / (1 - v) and q = -ln(1 - v)
    assert_eq!(ceval(F(0.0), F(1.0), F(1.0)), (F(0.0), F(1.0)));
    let (q, c) = ceval(F(-1.0), F(3.0), F(1.0));
    assert!(near(q.0, -3.0 * 2.0f64.ln()) && near(c.0, 1.5));
    // linear above half a volt: c = 2 + 4 dv
    let edge = 2.0f64.ln();
    let (q, c) = ceval(F(0.5), F(1.0), F(1.0));
    assert!(near(q.0, edge) && near(c.0, 2.0));
    let (q, c) = ceval(F(1.0), F(1.0), F(1.0));
    assert!(near(q.0, edge + 1.0 + 0.5) && near(c.0, 4.0));
}

#[test]
fn charge_integrates_the_capacitance() {
    for m in [0.0, 0.3, 0.5, 1.0, 1.5] {
        let mut q = 0.0;
        let steps = 4000;
        let (lo, hi) = (-2.0, 1.0);
        let h = (hi - lo) / steps as f64;
        for k in 0..steps {
            q += ceval(F(lo + (k as f64 + 0.5) * h), F(2.0), F(m)).1 .0 * h;
        }
        let exact = ceval(F(hi), F(2.0), F(m)).0 .0 - ceval(F(lo), F(2.0), F(m)).0 .0;
        assert!((q - exact).abs() < 1e-5, "m={} q={} exact={}", m, q, exact);
    }
}

#[test]
fn diode_current() {
    let (i, g) = diode_eval(F(0.0), F(1e-14), F(0.025), F(1e-3));
    assert_eq!(i, F(0.0));
    assert_eq!(g, F(1e-14 / 0.025 + 1e-3));
    // the exponential is bounded
    let (i, _) = diode_eval(F(1000.0), F(1.0), F(1.0), F(0.0));
    assert_eq!(i, F(200.0f64.exp() - 1.0));
}

#[test]
fn junction_limiting() {
    let (vt, vcrit) = (F(0.025), F(0.6));
    assert_eq!(pnjlim(F(0.5), F(0.0), vt, vcrit), F(0.5));
    assert_eq!(pnjlim(F(0.71), F(0.7), vt, vcrit), F(0.71));
    assert!(near(pnjlim(F(1.0), F(0.5), vt, vcrit).0, 0.5 + 0.025 * 21.0f64.ln()));
    assert!(near(pnjlim(F(1.0), F(-1.0), vt, vcrit).0, 0.025 * 40.0f64.ln()));
    assert_eq!(pnjlim(F(0.7), F(5.0), vt, vcrit), F(0.6));
}

#[test]
fn junction_bookkeeping() {
    let (mut lim, mut limited) = (F(0.0), false);
    let v = junction(F(0.3), &mut lim, F(0.025), F(1e-14), &mut limited);
    assert_eq!((v, lim, limited), (F(0.3), F(0.3), false));
    let v = junction(F(5.0), &mut lim, F(0.025), F(1e-14), &mut limited);
    assert!(limited && v == lim && v.0 < 1.0);
    // once set, the mark stays
    let v = junction(v, &mut lim, F(0.025), F(1e-14), &mut limited);
    assert!(limited && v == lim);
}

#[test]
fn square_law_regions() {
    assert_eq!(mos_eval(F(0.5), F(1.0), F(2.0), F(1.0), F(0.0)), (F(0.0), F(0.0), F(0.0)));
    // vov = 2, vds = 1: id = kp (2 - 0.5) = 3
    assert_eq!(mos_eval(F(3.0), F(1.0), F(2.0), F(1.0), F(0.0)), (F(3.0), F(2.0), F(2.0)));
    // vov = 2, vds = 4: id = 4 (1 + 0.4)
    let (id, gm, gds) = mos_eval(F(3.0), F(4.0), F(2.0), F(1.0), F(0.1));
    assert!(near(id.0, 5.6) && near(gm.0, 5.6) && near(gds.0, 0.4));
    // both regions meet at vds = vov
    assert_eq!(mos_eval(F(3.0), F(2.0), F(2.0), F(1.0), F(0.0)).0, F(4.0));
}

fn fet(pmos: bool) -> Dev<F> {
    Dev::M { d: 1, g: 2, s: 3, kp: F(2.0), vt0: F(1.0), lambda: F(0.0), pmos }
}

#[test]
fn transistor_frame() {
    let o = mos_op(&fet(false), &[F(0.0), F(4.0), F(3.0), F(0.0)]);
    assert_eq!((o.ed, o.es, o.i, o.gm, o.gds), (1, 3, F(4.0), F(4.0), F(0.0)));
    // drain and source exchanged
    let o = mos_op(&fet(false), &[F(0.0), F(0.0), F(3.0), F(4.0)]);
    assert_eq!((o.ed, o.es, o.i), (3, 1, F(4.0)));
    // the complementary transistor at the negative voltages
    let o = mos_op(&fet(true), &[F(0.0), F(-4.0), F(-3.0), F(0.0)]);
    assert_eq!((o.ed, o.es, o.i, o.gm, o.gds), (1, 3, F(-4.0), F(4.0), F(0.0)));
}

/// The same number up to the sign of zero, or no number both.
fn alike(a: F, b: F) -> bool {
    is_same(a, b) || (a.0.is_nan() && b.0.is_nan())
}

fn opposed(a: F, b: F) -> bool {
    alike(F::zero().sub(a), b)
}

#[test]
fn signs_pass_through_rounded_arithmetic() {
    let some = [
        0.0, -0.0, 1.0, -1.0, 0.1, -0.3, 1e-300, -5e-324, 1e308, -1e308, 0.7, 3.3e-12, f64::INFINITY,
        f64::NEG_INFINITY, f64::NAN,
    ];
    for a in some.map(F) {
        let m = F::zero().sub(a);
        assert!(opposed(m, a) && opposed(a, a.neg()) && alike(m.abs(), a.abs()));
        for b in some.map(F) {
            let n = b.neg();
            assert!(opposed(a.sub(b), b.sub(a)));
            assert!(opposed(a.add(b), m.add(n)), "{:?} {:?}", a, b);
            assert!(opposed(a.sub(b), m.sub(n)), "{:?} {:?}", a, b);
            assert!(opposed(a.mul(b), m.mul(b)) && opposed(a.mul(b), a.mul(n)));
            assert!(alike(a.mul(b), m.mul(n)));
            assert!(opposed(a.div(b), m.div(b)), "{:?} {:?}", a, b);
            for sign in [F::one(), F::lit(-1, 0)] {
                if a.is_finite() && b.is_finite() {
                    let u = sign.mul(a.sub(b));
                    assert!(u.le(u) && (!is_same(u, F::zero()) || is_same(a, b)));
                }
            }
            // the sign of a zero makes no difference
            for (x, y) in [(0.0, -0.0), (-0.0, 0.0)] {
                let (x, y) = (F(x), F(y));
                assert!(alike(a.add(x), a.add(y)) && alike(x.sub(b), y.sub(b)));
                assert!(alike(a.mul(x), a.mul(y)) && alike(x.div(b), y.div(b)));
                assert!(alike(x.max(b), y.max(b)) && alike(a.min(x), a.min(y)));
                assert_eq!((a.lt(x), a.le(x), x.lt(a)), (a.lt(y), a.le(y), y.lt(a)));
                assert_eq!((a.exceeds(x), x.exceeds(a)), (a.exceeds(y), y.exceeds(a)));
                assert!(alike(x.exp(), y.exp()) && alike(x.ln(), y.ln()));
            }
        }
    }
}

#[test]
fn frames_are_upright() {
    let turned = |pmos: bool| match fet(pmos) {
        Dev::M { d, g, s, kp, vt0, lambda, pmos } => {
            Dev::M { d: s, g, s: d, kp, vt0, lambda, pmos }
        }
        d => d,
    };
    for pmos in [false, true] {
        let sign = if pmos { -1.0 } else { 1.0 };
        for (vd, vg, vs) in [(4.0, 3.0, 0.0), (0.0, 3.0, 4.0), (-2.0, 1.5, 1.0), (2.5, -3.0, 2.0)] {
            let x = [F(0.0), F(vd), F(vg), F(vs)];
            let o = mos_op(&fet(pmos), &x);
            assert!((o.ed, o.es) == (1, 3) || (o.ed, o.es) == (3, 1));
            assert!(sign * (x[o.ed].0 - x[o.es].0) >= 0.0);
            let e = mos_op(&turned(pmos), &x);
            assert_eq!((e.ed, e.es, e.i, e.gm, e.gds), (o.ed, o.es, o.i, o.gm, o.gds));
            let y = [F(0.0), F(-vd), F(-vg), F(-vs)];
            let m = mos_op(&fet(!pmos), &y);
            assert_eq!((m.ed, m.es, m.i.0, m.gm, m.gds), (o.ed, o.es, -o.i.0, o.gm, o.gds));
        }
    }
}

// ---- solver

#[test]
fn tolerances() {
    assert_eq!(tolv(1, 2, F(-3.0), F(2.0)), F(1e-6 + 1e-3 * 3.0));
    assert_eq!(tolv(2, 2, F(0.5), F(-1.0)), F(1e-12 + 1e-3));
}

#[test]
fn names_of_unknowns() {
    let c = read("t\nv1 a 0 1\nr1 a b 1\nl1 b 0 1\n");
    assert_eq!(unk_name(&c, 2), "node b");
    assert_eq!(unk_name(&c, 4), "branch l1");
    assert_eq!(unk_name(&c, 99), "unknown 99");
    assert_eq!(branches(&c), vec!["v1", "l1"]);
}

#[test]
fn operating_point_of_a_divider() {
    let c = read("t\nv1 a 0 10\nr1 a b 1\nr2 b 0 4\n");
    let (m, x, lim) = op_setup(&c).ok().unwrap();
    assert_eq!((m, lim.len()), (4, 3));
    assert_eq!(floats(&x), vec![0.0, 10.0, 8.0, -2.0]);
}

#[test]
fn equations_of_a_circuit() {
    let c = read("t\nv1 a 0 3\nr1 a b 2\nd1 b 0\n");
    let mut lim = vec![(F(0.0), F(0.0)); 3];
    let mut limited = false;
    let x = vec![F(0.0); 4];
    let s = assemble(&c, &x, &mut lim, &Mode::Dc { fac: F(0.5) }, F(1e-3), &mut limited);
    let row = |i: usize| s.rows[i].iter().map(|e| (e.0, e.1 .0)).collect::<Vec<(usize, f64)>>();
    assert_eq!(row(1), vec![(1, 0.5), (2, -0.5), (3, 1.0)]);
    assert_eq!(row(2), vec![(1, -0.5), (2, 0.5 + (1e-14 / 0.02585 + 1e-3))]);
    assert_eq!(row(3), vec![(1, 1.0)]);
    assert_eq!(floats(&s.b), vec![0.0, 0.0, 0.0, 1.5]);
    assert!(!limited);
}

#[test]
fn linear_circuits_take_two_iterations() {
    let c = read("t\nv1 a 0 10\nr1 a b 1\nr2 b 0 4\n");
    let mut x = vec![F(0.0), F(7.0), F(-3.0), F(100.0)];
    let mut lim = vec![(F(0.0), F(0.0)); 3];
    let n = newton(&c, &mut x, &mut lim, &Mode::Dc { fac: F(1.0) }, F(1e-12), 100);
    assert_eq!(n.ok(), Some(Some(2)));
    assert_eq!(floats(&x), vec![0.0, 10.0, 8.0, -2.0]);
    // one iteration never counts as converged
    let n = newton(&c, &mut x, &mut lim, &Mode::Dc { fac: F(1.0) }, F(1e-12), 1);
    assert_eq!(n.ok(), Some(None));
}

#[test]
fn operating_points_are_found_again() {
    let c = read("t\nv1 a 0 5\nr1 a b 1k\nd1 b 0\n");
    let (_, mut x, mut lim) = op_setup(&c).ok().unwrap();
    let first = floats(&x);
    assert!(op_solve(&c, &mut x, &mut lim).is_ok());
    for (a, b) in first.iter().zip(floats(&x)) {
        assert!((a - b).abs() < 1e-5);
    }
}

#[test]
fn controlled_sources() {
    let c = read("t\nv1 a 0 2\ne1 b 0 a 0 3\nr1 b 0 1\ng1 c 0 a 0 -0.5\nr2 c 0 4\n");
    let (_, x, _) = op_setup(&c).ok().unwrap();
    assert_eq!(floats(&x), vec![0.0, 2.0, 6.0, 4.0, 0.0, -6.0]);
}

#[test]
fn inductor_is_a_short_and_capacitor_an_opening() {
    let c = read("t\ni1 0 a 2\nl1 a b 1\nr1 b 0 3\nc1 b 0 1\n");
    let (_, x, _) = op_setup(&c).ok().unwrap();
    assert_eq!(floats(&x), vec![0.0, 6.0, 6.0, 2.0]);
}

#[test]
fn continuation_finds_hard_operating_points() {
    // ten diodes in series with nothing but gmin to hold the middle nodes
    let mut nl = String::from("t\nv1 n0 0 20\nr1 n0 n1 10\n");
    for k in 1..11 {
        nl.push_str(&format!("d{} n{} n{}\n", k, k, k + 1));
    }
    nl.push_str("r2 n11 0 10\n");
    let c = read(&nl);
    let (_, x, _) = op_setup(&c).ok().unwrap();
    let i = (20.0 - x[2].0) / 10.0;
    assert!((x[12].0 / 10.0 - i).abs() < 1e-2 * i);
    assert!(x[2].0 - x[12].0 > 5.0 && x[2].0 - x[12].0 < 10.0);
}

#[test]
fn states_at_the_start() {
    let c = read("t\nv1 a 0 4\nc1 a 0 2 ic=3\nl1 a b 5 ic=7\nr1 b 0 2\nc2 a 0 1\n");
    let x = vec![F(0.0), F(4.0), F(4.0), F(-2.0), F(2.0)];
    let st = init_state(&c, &x, false);
    assert_eq!(st, vec![
        (F(0.0), F(0.0)),
        (F(8.0), F(0.0)),
        (F(10.0), F(0.0)),
        (F(0.0), F(0.0)),
        (F(4.0), F(0.0))
    ]);
    let st = init_state(&c, &x, true);
    assert_eq!((st[1].0, st[2].0, st[4].0), (F(6.0), F(35.0), F(4.0)));
}

#[test]
fn states_after_a_step() {
    let c = read("t\nc1 a 0 2\nr1 a 0 1\n");
    let mut st = vec![(F(1.0), F(3.0)), (F(9.0), F(9.0))];
    update_state(&c, &[F(0.0), F(2.0)], F(0.5), &mut st, false);
    // 2 / 0.5 * (4 - 1) - 3
    assert_eq!(st, vec![(F(4.0), F(9.0)), (F(9.0), F(9.0))]);
    update_state(&c, &[F(0.0), F(3.0)], F(0.5), &mut st, true);
    assert_eq!(st[0], (F(6.0), F(4.0)));
}

// ---- output

#[test]
fn columns_and_selection() {
    let mut c = read("t\nv1 a 0 1\nr1 a b 1\nl1 b 0 1\n");
    assert_eq!(columns(&c), vec!["v(a)", "v(b)", "i(v1)", "i(l1)"]);
    let s = selection(&c);
    assert_eq!(s.names, columns(&c));
    assert_eq!(s.idx, vec![1, 2, 3, 4]);
    assert!(s.missing.is_empty());
    c.prints = vec!["i(l1)".to_string(), "v(x)".to_string(), "v(a)".to_string()];
    let s = selection(&c);
    assert_eq!(s.names, vec!["v(a)", "i(l1)"]);
    assert_eq!(s.idx, vec![1, 4]);
    assert_eq!(s.missing, vec!["v(x)"]);
}

#[test]
fn rows_of_numbers() {
    assert_eq!(fmt_row(&[F(1.0), F(-0.5)]), "1.000000000e0,-5.000000000e-1");
    assert_eq!(fmt_row::<F>(&[]), "");
    assert_eq!(pick(&[F(0.0), F(1.0), F(2.0)], &[2, 1]), vec![F(2.0), F(1.0)]);
    assert_eq!(label("mag", "v(a)"), "mag(v(a))");
    assert_eq!(lead("time", "v(a)"), "time,v(a)");
}

// ---- operating point and sweep

#[test]
fn operating_point_report() {
    let r = run_op(&read("t\nv1 a 0 10\nr1 a b 1\nr2 b 0 4\n.print v(b) i(zz)\n"));
    assert_eq!(r.notes, vec!["unknown .print item i(zz)"]);
    assert_eq!(r.lines, vec!["# op", "v(b)", "8.000000000e0", ""]);
    assert!(matches!(r.end, End::Done));
}

#[test]
fn sweep_report() {
    let mut c = read("t\nv1 a 0 sin(0 1 1)\nr1 a 0 2\n.print i(v1)\n");
    let r = run_dc(&mut c, "v1", F(1.0), F(3.0), F(1.0));
    assert_eq!(r.lines, vec![
        "# dc",
        "v1,i(v1)",
        "1.000000000e0,-5.000000000e-1",
        "2.000000000e0,-1.000000000e0",
        "3.000000000e0,-1.500000000e0",
        ""
    ]);
    // the sweep owns the source and leaves it at the last value
    assert!(matches!(&c.devs[0], Dev::V { dc: F(v), wave: None, .. } if *v == 3.0));
}

#[test]
fn sweep_that_goes_nowhere_has_one_point() {
    let mut c = read("t\ni1 0 a 1\nr1 a 0 2\n");
    let r = run_dc(&mut c, "i1", F(5.0), F(1.0), F(1.0));
    assert_eq!(r.lines.len(), 4);
    assert_eq!(r.lines[2], "5.000000000e0,1.000000000e1");
    let r = run_dc(&mut c, "i1", F(5.0), F(1.0), F(-2.0));
    assert_eq!(r.lines.len(), 6);
}

#[test]
fn sweep_faults() {
    let nl = "t\nv1 a 0 1\nr1 a 0 2\n";
    assert_eq!(failure(&format!("{}.dc vx 0 1 1\n", nl)), "unknown sweep source 'vx'");
    assert_eq!(failure(&format!("{}.dc v1 0 1 0\n", nl)), ".dc step must be nonzero");
    let r = report(&format!("{}.dc r1 0 1 1\n", nl));
    assert_eq!(r.lines, vec!["# dc", "r1,v(a),i(v1)"]);
    assert!(matches!(r.end, End::Failed(_)));
    assert_eq!(
        failure(&format!("{}.dc r1 0 1 1\n", nl)),
        ".dc sweep source must be a v or i source"
    );
}

#[test]
fn singular_circuits() {
    assert_eq!(
        failure("t\nv1 a 0 1\nc1 a b 1\nr1 a 0 1\n"),
        "singular matrix at node b, no conduction path?"
    );
    assert_eq!(
        failure("t\nv1 a 0 1\nv2 a 0 2\n"),
        "singular matrix at branch v2, no conduction path?"
    );
}

#[test]
fn hopeless_operating_point() {
    assert_eq!(
        failure("t\ni1 0 a 1e80\nd1 a 0\n"),
        "operating point did not converge (gmin and source stepping failed)"
    );
}

// ---- session

#[test]
fn operating_point_is_the_default() {
    let nl = "t\nv1 a 0 1\nr1 a 0 2\n";
    assert!(matches!(plan(&read(nl))[0], Analysis::Op));
    assert_eq!(report(nl).lines, report(&format!("{}.op\n", nl)).lines);
    assert_eq!(report(nl).lines[0], "# op");
}

#[test]
fn sweeps_change_what_follows() {
    let r = report("t\nv1 a 0 1\nr1 a 0 2\n.op\n.dc v1 0 4 4\n.op\n.print v(a)\n");
    assert_eq!(r.lines, vec![
        "# op",
        "v(a)",
        "1.000000000e0",
        "",
        "# dc",
        "v1,v(a)",
        "0.000000000e0,0.000000000e0",
        "4.000000000e0,4.000000000e0",
        "",
        "# op",
        "v(a)",
        "4.000000000e0",
        ""
    ]);
}

#[test]
fn a_failed_analysis_is_the_last() {
    let r = report("t\nv1 a 0 1\nr1 a 0 2\n.op\n.dc vx 0 1 1\n.op\n");
    assert_eq!(r.lines.len(), 4);
    assert!(matches!(r.end, End::Failed(_)));
    let mut c = read("t\nv1 a 0 1\nr1 a 0 2\n");
    assert!(matches!(run_analysis(&mut c, &Analysis::Op, 0).end, End::Done));
}

// ---- transient

#[test]
fn break_times() {
    let c = read("t\nv1 a 0 pulse(0 1 1 1 1 1 6)\ni1 a 0 pwl(-1 0 2 1 4.5 0 30 0)\nr1 a 0 1\n");
    let bp = breakpoints(&c, F(10.0), 10).unwrap();
    assert_eq!(floats(&bp), vec![1.0, 2.0, 3.0, 4.0, 4.5, 7.0, 8.0, 9.0]);
    // two repetitions are needed
    assert!(breakpoints(&c, F(10.0), 1).is_none());
    assert!(breakpoints(&c, F(10.0), 2).is_some());
    assert!(breakpoints(&c, F(1.0), 2).unwrap().is_empty());
}

#[test]
fn sweeps_can_be_watched() {
    let nl = "t\nv1 a 0 1 ac 2\nr1 a b 1k\nd1 b 0\nc1 b 0 1u\n";
    let whole = run_dc(&mut read(nl), "v1", F(0.0), F(1.0), F(0.25));
    let mut c = read(nl);
    let (report, state) = start_dc(&c, "v1", F(0.0), F(1.0), F(0.25));
    let mut lines = report.lines;
    let mut s = state.unwrap();
    while let Some(row) = s.next_row(&mut c) {
        lines.push(row.ok().unwrap());
    }
    assert_eq!(lines.len(), 7);
    assert_eq!(lines, whole.lines[..7]);
    assert!(s.next_row(&mut c).is_none());
    assert!(start_dc(&c, "zz", F(0.0), F(1.0), F(0.25)).1.is_none());
    assert!(start_dc(&c, "r1", F(0.0), F(1.0), F(0.25)).1.is_none());
    // the same for frequencies
    let c = read(nl);
    let whole = run_ac(&c, false, 3, F(1.0), F(100.0), 10);
    let (report, state) = start_ac(&c, false, 3, F(1.0), F(100.0), 10);
    let mut lines = report.lines;
    let mut s = state.unwrap();
    while let Some(row) = s.next_row(&c) {
        lines.push(row.ok().unwrap());
    }
    assert_eq!(lines.len(), 5);
    assert_eq!(lines, whole.lines[..5]);
    assert!(s.next_row(&c).is_none());
    assert!(start_ac(&c, true, 0, F(1.0), F(100.0), 10).1.is_none());
}

#[test]
fn sorting_keeps_equal_elements_in_order() {
    assert!(sort::<F>(&vec![]).is_empty());
    let s = sort(&vec![F(3.0), F(1.0), F(2.0), F(1.0), F(-4.0), F(3.0), F(0.5)]);
    assert_eq!(floats(&s), vec![-4.0, 0.5, 1.0, 1.0, 2.0, 3.0, 3.0]);
    // zeros of both signs are equal and stay as they were
    let z = sort(&vec![F(1.0), F(0.0), F(-0.0), F(-1.0), F(-0.0), F(0.0)]);
    let signs: Vec<bool> = z.iter().map(|v| v.0.is_sign_negative()).collect();
    assert_eq!(signs, vec![true, false, true, true, false, false]);
    let mut v: Vec<F> = (0..5000).map(|k| F((k * 7919 % 5000) as f64)).collect();
    v.push(F(17.0));
    let mut expected = floats(&v);
    expected.sort_by(|a, b| a.total_cmp(b));
    assert_eq!(floats(&sort(&v)), expected);
}

#[test]
fn corners_are_break_times() {
    // two sources whose repetitions interleave
    let c = read("t\nv1 a 0 pulse(0 1 0 1 1 2 10)\nv2 b 0 pulse(0 1 0.5 1 1 2 10)\nr1 a b 1\n");
    let bp = floats(&breakpoints(&c, F(20000.0), 3000).unwrap());
    for k in 0..2000 {
        let off = 10.0 * k as f64;
        for t in [1.0, 3.0, 4.0, 0.5, 1.5, 3.5, 4.5] {
            assert!(bp.binary_search_by(|b| b.total_cmp(&(t + off))).is_ok(), "{}", t + off);
        }
    }
    // without a period there is one repetition
    let c = read("t\nv1 a 0 pwl(0 0 1 1 2 0)\nr1 a 0 1\n");
    assert_eq!(floats(&breakpoints(&c, F(100.0), 1).unwrap()), vec![1.0, 2.0]);
}

#[test]
fn decades_end_before_the_next_point() {
    for (n, f1, f2) in [(1, 1.0, 1000.0), (3, 2.0, 150.0), (10, 10.0, 1e6), (7, 5.0, 5.0)] {
        let fs = floats(&freqs(true, n, F(f1), F(f2), 1000).unwrap());
        let top = f2 * (1.0 + 1e-9);
        assert!(fs.iter().all(|f| *f <= top));
        let next = f1 * 10f64.powf(fs.len() as f64 / n as f64);
        assert!(next > top, "{} {}", next, top);
    }
}

#[test]
fn break_times_come_from_sources() {
    let c = read("t\nv1 a 0 pulse(0 1 0.3 0.1 0.2 0.4 2)\nr1 a 0 1\n");
    let bp = floats(&breakpoints(&c, F(6.9), 10).unwrap());
    for b in &bp {
        let hit = (0..4).any(|k| {
            let off = 2.0 * k as f64;
            [0.3, 0.3 + 0.1, 0.3 + 0.1 + 0.4, 0.3 + 0.1 + 0.4 + 0.2]
                .iter()
                .any(|t| (t + off - b).abs() < 1e-12)
        });
        assert!(hit, "{}", b);
    }
    // the last corner of the fourth repetition lies behind the end
    assert_eq!(bp.len(), 15);
}

#[test]
fn rows_show_the_break_times() {
    let nl = "t\nv1 in 0 pulse(0 1 1m 10u 10u 2m 5m)\ni1 out 0 pwl(0 0 3.3m 1m 7.7m 0)\n\
              r1 in out 1k\nc1 out 0 1u\n.tran 100u 20m\n";
    let c = read(nl);
    let (tstep, tstop) = (100e-6, 20e-3);
    let hmin = tstop * 1e-12;
    let (_, d) = table(&run(nl), "tran");
    let times: Vec<f64> = d.iter().map(|r| r[0]).collect();
    // the rows are printed with ten digits
    let grain = 1e-9 * tstop;
    let bp = floats(&breakpoints(&c, F(tstop), 100).unwrap());
    assert_eq!(bp.len(), 18);
    for b in bp {
        assert!(times.iter().any(|t| (t - b).abs() <= hmin + grain), "{}", b);
    }
    assert_eq!(times[0], 0.0);
    for w in times.windows(2) {
        assert!(w[0] < w[1], "{} {}", w[0], w[1]);
        assert!(w[1] - w[0] <= tstep + hmin + grain, "{} {}", w[0], w[1]);
    }
    let last = times[times.len() - 1];
    assert!((last - tstop).abs() <= hmin + grain, "{}", last);
}

#[test]
fn transient_faults() {
    let nl = "t\nv1 a 0 1\nr1 a 0 2\n";
    assert_eq!(failure(&format!("{}.tran 0 1\n", nl)), "bad .tran parameters");
    assert_eq!(failure(&format!("{}.tran 1 -1\n", nl)), "bad .tran parameters");
    let m = failure("t\ni1 0 a pulse(0 1e80 1 1)\nd1 a 0\n.tran 0.5 4\n");
    assert!(m.starts_with("timestep too small at t = "), "{}", m);
}

#[test]
fn transient_lands_on_breaks_and_on_the_end() {
    let rows = run("t\nv1 a 0 pulse(0 1 0.3 0.1 0.2 0.25 5)\nr1 a b 1\nc1 b 0 0.1\n.tran 0.07 1\n");
    let (_, d) = table(&rows, "tran");
    let times: Vec<f64> = d.iter().map(|r| r[0]).collect();
    for t in [0.0, 0.3, 0.4, 0.65, 0.85, 1.0] {
        assert!(times.iter().any(|x| (x - t).abs() < 1e-8), "no row at {}", t);
    }
    assert!(times.windows(2).all(|w| w[0] < w[1]));
}

#[test]
fn initial_conditions() {
    let nl = "t\nr1 a 0 1k\nc1 a 0 1u ic=5\n.tran 10u 1m uic\n";
    let (h, d) = table(&run(nl), "tran");
    let c = col(&h, "v(a)");
    assert_eq!(d[0], vec![0.0, 0.0]);
    for r in &d[1..] {
        let want = 5.0 * (-r[0] / 1e-3).exp();
        assert!((r[c] - want).abs() < 5e-2, "t={} v={} want={}", r[0], r[c], want);
    }
    // without uic the operating point counts
    let (_, d) = table(&run("t\nr1 a 0 1k\nc1 a 0 1u ic=5\n.tran 10u 1m\n"), "tran");
    assert!(d.iter().all(|r| r[1] == 0.0));
}

#[test]
fn oscillator_keeps_its_amplitude() {
    // an ideal resonator with one radian per second
    let (h, d) = table(&run("t\nl1 a 0 1 ic=0\nc1 a 0 1 ic=1\n.tran 0.05 20 uic\n"), "tran");
    let (v, i) = (col(&h, "v(a)"), col(&h, "i(l1)"));
    for r in d.iter().skip(20) {
        let energy = r[v] * r[v] + r[i] * r[i];
        assert!((energy - 1.0).abs() < 2e-2, "t={} energy={}", r[0], energy);
    }
    assert!((d.last().unwrap()[v] - 20.0f64.cos()).abs() < 5e-2);
}

#[test]
fn analysis_in_pieces() {
    let c = read("t\nv1 a 0 pulse(0 1 0 1n 1n 1 2)\nr1 a b 1k\nc1 b 0 1u\n");
    let whole = run_tran(&c, F(1e-4), F(1e-3), false, 100000);
    let (head, state) = start_tran(&c, F(1e-4), F(1e-3), false, 100000);
    let mut s = state.unwrap();
    let mut lines = head.lines;
    assert!(s.is_pending());
    loop {
        let (rows, end) = s.advance(&c, 3);
        assert!(rows.len() <= 3);
        lines.extend(rows);
        match end {
            End::Unfinished => {}
            End::Done => break,
            End::Failed(e) => panic!("{}", e.message()),
        }
    }
    assert!(!s.is_pending());
    lines.push(String::new());
    assert_eq!(lines, whole.lines);
}

#[test]
fn unfinished_analysis() {
    let c = read("t\nv1 a 0 1\nr1 a 0 1\n");
    let r = run_tran(&c, F(1e-4), F(1.0), false, 5);
    assert!(matches!(r.end, End::Unfinished));
    assert_eq!(r.lines.len(), 8);
}

#[test]
fn single_steps() {
    let c = read("t\nv1 a 0 1\nr1 a 0 1\n");
    let (r, state) = start_tran(&c, F(0.1), F(1.0), false, 10);
    assert_eq!(r.lines[1], "time,v(a),i(v1)");
    let mut s = state.unwrap();
    let line = s.step(&c).ok().unwrap();
    // the first step is a hundredth of the step asked for, the second twice that
    assert_eq!(line, Some("1.000000000e-3,1.000000000e0,-1.000000000e0".to_string()));
    assert_eq!(s.h, F(2e-3));
    assert_eq!(s.old.len(), 1);
}

#[test]
fn quadratics_are_predicted() {
    // a constant current into a capacitor: the voltage is linear in time, so
    // prediction and solution agree and the step grows to the one asked for
    let c = read("t\ni1 0 a 1\nc1 a 0 1\nr1 a 0 1e12\n");
    let (_, state) = start_tran(&c, F(0.1), F(1.0), true, 10);
    let mut s = state.unwrap();
    let mut accepted = 0;
    while s.is_pending() {
        if s.step(&c).ok().unwrap().is_some() {
            accepted += 1;
            assert!((s.x[1].0 - s.t.0).abs() < 1e-9);
        }
    }
    assert!(accepted < 25, "{} steps", accepted);
}

// ---- small signal

#[test]
fn frequency_ranges() {
    assert_eq!(floats(&freqs(false, 1, F(3.0), F(9.0), 9).unwrap()), vec![3.0]);
    assert_eq!(floats(&freqs(false, 4, F(3.0), F(9.0), 9).unwrap()), vec![3.0, 5.0, 7.0, 9.0]);
    let f = freqs(true, 2, F(1.0), F(100.0), 9).unwrap();
    assert_eq!(f.len(), 5);
    assert_eq!(f[2], F(10.0));
    assert!(near(f[3].0, 10.0 * 10.0f64.sqrt()));
    assert!(freqs(true, 2, F(1.0), F(100.0), 4).is_none());
    assert!(freqs(true, 2, F(1.0), F(100.0), 5).is_some());
}

#[test]
fn small_signal_report() {
    let nl = "t\nv1 a 0 ac 1\nr1 a b 1\nr2 b 0 3\n.print v(b)\n.ac lin 2 1 2\n";
    assert_eq!(report(nl).lines, vec![
        "# ac",
        "freq,mag(v(b)),ph(v(b))",
        "1.000000000e0,7.500000000e-1,0.000000000e0",
        "2.000000000e0,7.500000000e-1,0.000000000e0",
        ""
    ]);
}

#[test]
fn current_source_into_an_inductor() {
    // v = w L with a phase of 90 degrees
    let nl = "t\ni1 0 a ac 2\nl1 a 0 3\nr1 a 0 1e9\n.ac lin 1 1 1\n";
    let (h, d) = table(&run(nl), "ac");
    assert!((d[0][col(&h, "mag(v(a))")] - 2.0 * 6.0 * std::f64::consts::PI).abs() < 1e-6);
    assert!((d[0][col(&h, "ph(v(a))")] - 90.0).abs() < 1e-5);
    assert!((d[0][col(&h, "mag(i(l1))")] - 2.0).abs() < 1e-6);
}

#[test]
fn small_signal_gain_at_the_operating_point() {
    // gm = kp (vgs - vt0) = 2 mS into 1 kOhm
    let nl = "t\nvd d0 0 10\nvg g 0 dc 2 ac 1\nrd d0 d 1k\nm1 d g 0 0 nmos kp=2m vt0=1\n.ac dec 1 1 1\n";
    let (h, d) = table(&run(nl), "ac");
    assert!((d[0][col(&h, "mag(v(d))")] - 2.0).abs() < 1e-6);
    assert!((d[0][col(&h, "ph(v(d))")].abs() - 180.0).abs() < 1e-6);
}

#[test]
fn small_signal_faults() {
    let nl = "t\nv1 a 0 ac 1\nr1 a 0 1\n";
    assert_eq!(failure(&format!("{}.ac dec 0 1 2\n", nl)), "bad .ac parameters");
    assert_eq!(failure(&format!("{}.ac dec 1 0 2\n", nl)), "bad .ac parameters");
    assert_eq!(failure(&format!("{}.ac lin 1 2 1\n", nl)), "bad .ac parameters");
    let r = report("t\nv1 in 0 ac 1\nr1 in a 1\nc1 a 0 1e300\n.ac lin 1 1e300 1e300\n");
    assert_eq!(r.lines.len(), 2);
    match r.end {
        End::Failed(e) => assert_eq!(e.message(), "singular matrix in .ac at branch v1"),
        _ => panic!("solved"),
    }
    let c = read(nl);
    assert!(matches!(run_ac(&c, true, 10, F(1.0), F(1e3), 5).end, End::Unfinished));
}

// ---- devices in circuits

#[test]
fn jfet_bias() {
    // id = beta (vgs - vto)^2 = 1 mA
    let rows = run("t\nvdd v 0 10\nvg g 0 -1\nrd v d 2k\nj1 d g 0 njf beta=1m vto=-2\n");
    let (h, d) = table(&rows, "op");
    assert!((d[0][col(&h, "v(d)")] - 8.0).abs() < 1e-4);
}

#[test]
fn complementary_circuits_mirror() {
    let n = run("t\nvdd v 0 5\nvg g 0 2\nrd v d 2k\nm1 d g 0 0 nmos kp=2m vt0=1 lambda=0.02\n");
    let p = run("t\nvdd v 0 -5\nvg g 0 -2\nrd v d 2k\nm1 d g 0 0 pmos kp=2m vt0=1 lambda=0.02\n");
    let ((h, a), (_, b)) = (table(&n, "op"), table(&p, "op"));
    for k in 0..h.len() {
        assert_eq!(a[0][k], -b[0][k], "{}", h[k]);
    }
}

#[test]
fn mirror_images_rest_at_negated_points() {
    let a = run(
        "t\nv1 a 0 pwl(0 5 1 6)\ni1 0 b sin(1m 2m 50)\nr1 a b 1k\nd1 b 0\nd2 c b\nr2 c 0 2k\n\
         q1 d b e npn\nr3 a d 1k\nr4 e 0 100\nm1 f a 0 0 pmos vt0=1\nr5 d f 1k\n\
         j1 f g 0 njf\nr6 g 0 1k\ne1 g h b 0 2\ng1 h 0 d 0 1m\nr7 h 0 1k\nl1 c k 1\nr8 k 0 1k\n",
    );
    let b = run(
        "t\nv1 a 0 pwl(0 -5 1 -6)\ni1 0 b sin(-1m -2m 50)\nr1 a b 1k\nd1 0 b\nd2 b c\nr2 c 0 2k\n\
         q1 d b e pnp\nr3 a d 1k\nr4 e 0 100\nm1 f a 0 0 nmos vt0=1\nr5 d f 1k\n\
         j1 f g 0 pjf\nr6 g 0 1k\ne1 g h b 0 2\ng1 h 0 d 0 1m\nr7 h 0 1k\nl1 c k 1\nr8 k 0 1k\n",
    );
    let ((h, a), (_, b)) = (table(&a, "op"), table(&b, "op"));
    assert!(h.len() > 10);
    for k in 0..h.len() {
        assert_eq!(a[0][k], -b[0][k], "{}", h[k]);
    }
    assert!(a[0].iter().any(|v| *v != 0.0));
}

#[test]
fn branch_current_flows_into_the_positive_terminal() {
    let rows = run("t\nv1 a 0 6\nr1 a 0 2\n");
    let (h, d) = table(&rows, "op");
    assert_eq!(d[0][col(&h, "i(v1)")], -3.0);
}

#[test]
fn currents_balance_at_every_node() {
    let rows = run("t\nv1 a 0 10\nr1 a b 1k\nr2 b c 2k\nr3 b 0 3k\nr4 c 0 4k\nr5 a c 5k\n");
    let (h, d) = table(&rows, "op");
    let v = |n: &str| d[0][col(&h, n)];
    let (a, b, c) = (v("v(a)"), v("v(b)"), v("v(c)"));
    assert!(((a - b) / 1e3 - (b - c) / 2e3 - b / 3e3).abs() < 1e-11);
    assert!(((b - c) / 2e3 + (a - c) / 5e3 - c / 4e3).abs() < 1e-11);
    assert!((v("i(v1)") + (a - b) / 1e3 + (a - c) / 5e3).abs() < 1e-11);
}
