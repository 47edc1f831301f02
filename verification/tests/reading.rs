use nanospice::circuit::{Analysis, Circuit, Dev, Wave};
use nanospice::fault::ParseError;
use nanospice::num::{Num, Real};
use nanospice::number::num;
use nanospice::parser::{numx, parse, pval, src_spec, tok};
use nanospice::text::{
    behind, chars_of, equal, join, lists, lower, show_usize, space, split_lines, split_words,
    starts_with, string_of, trim,
};

/// Double precision arithmetic.
#[derive(Clone, Copy, Debug, PartialEq)]
struct F(f64);

impl Num for F {
    fn zero() -> F {
        F(0.0)
    }
    fn one() -> F {
        F(1.0)
    }
    fn add(self, o: F) -> F {
        F(self.0 + o.0)
    }
    fn sub(self, o: F) -> F {
        F(self.0 - o.0)
    }
    fn mul(self, o: F) -> F {
        F(self.0 * o.0)
    }
    fn div(self, o: F) -> F {
        F(self.0 / o.0)
    }
    fn exceeds(self, o: F) -> bool {
        self.0.abs() > o.0.abs()
    }
    fn vanishes(self) -> bool {
        self.0.abs() < 1e-300
    }
}

impl Real for F {
    fn lit(m: i64, e: i32) -> F {
        if e == 0 {
            F(m as f64)
        } else {
            F(format!("{}e{}", m, e).parse().unwrap())
        }
    }
    fn of_int(i: i128) -> F {
        F(i as f64)
    }
    fn nan() -> F {
        F(f64::NAN)
    }
    fn max_value() -> F {
        F(f64::MAX)
    }
    fn is_finite(self) -> bool {
        self.0.is_finite()
    }
    fn lt(self, o: F) -> bool {
        self.0 < o.0
    }
    fn le(self, o: F) -> bool {
        self.0 <= o.0
    }
    fn max(self, o: F) -> F {
        F(self.0.max(o.0))
    }
    fn min(self, o: F) -> F {
        F(self.0.min(o.0))
    }
    fn neg(self) -> F {
        F(-self.0)
    }
    fn abs(self) -> F {
        F(self.0.abs())
    }
    fn rem(self, o: F) -> F {
        F(self.0 % o.0)
    }
    fn exp(self) -> F {
        F(self.0.exp())
    }
    fn ln(self) -> F {
        F(self.0.ln())
    }
    fn sin(self) -> F {
        F(self.0.sin())
    }
    fn powf(self, e: F) -> F {
        F(self.0.powf(e.0))
    }
    fn powi(self, e: i32) -> F {
        F(self.0.powi(e))
    }
    fn cbrt(self) -> F {
        F(self.0.cbrt())
    }
    fn hypot(self, o: F) -> F {
        F(self.0.hypot(o.0))
    }
    fn atan2(self, x: F) -> F {
        F(self.0.atan2(x.0))
    }
    fn round_i64(self) -> i64 {
        self.0.round() as i64
    }
    fn to_usize(self) -> usize {
        self.0 as usize
    }
    fn parse(t: &str) -> Option<F> {
        t.parse::<f64>().ok().map(F)
    }
    fn show(self, digits: usize) -> String {
        format!("{:.*e}", digits, self.0)
    }
}

fn toks(s: &str) -> Vec<String> {
    s.split_whitespace().map(|t| t.to_string()).collect()
}

fn read(src: &str) -> Circuit<F> {
    match parse::<F>(src).circuit {
        Ok(c) => c,
        Err(e) => panic!("{}", e.message()),
    }
}

fn fault(src: &str) -> String {
    match parse::<F>(src).circuit {
        Ok(_) => panic!("accepted"),
        Err(e) => e.message(),
    }
}

fn value(t: &str) -> f64 {
    match num::<F>(t) {
        Some(v) => v.0,
        None => panic!("no number: {}", t),
    }
}

/// A circuit as text, to compare two of them.
fn dump(c: &Circuit<F>) -> String {
    let mut s = format!("{:?} {:?} {:?} {}", c.names, c.nodes, c.prints, c.nb);
    for d in &c.devs {
        s.push_str(&dump_dev(d));
    }
    for a in &c.analyses {
        s.push_str(&match a {
            Analysis::Op => "op".to_string(),
            Analysis::Dc { src, start, stop, step } => {
                format!("dc {} {:?} {:?} {:?}", src, start, stop, step)
            }
            Analysis::Tran { tstep, tstop, uic } => format!("tran {:?} {:?} {}", tstep, tstop, uic),
            Analysis::Ac { dec, n, f1, f2 } => format!("ac {} {} {:?} {:?}", dec, n, f1, f2),
        });
    }
    s
}

fn dump_wave(w: &Option<Wave<F>>) -> String {
    match w {
        None => "-".to_string(),
        Some(Wave::Sin { vo, va, fr, td, theta }) => {
            format!("sin {:?} {:?} {:?} {:?} {:?}", vo, va, fr, td, theta)
        }
        Some(Wave::Pwl { pts, per }) => format!("pwl {:?} {:?}", pts, per),
    }
}

fn dump_dev(d: &Dev<F>) -> String {
    match d {
        Dev::R { p, n, v } => format!("\nR {} {} {:?}", p, n, v),
        Dev::C { p, n, v, ic, m } => format!("\nC {} {} {:?} {:?} {:?}", p, n, v, ic, m),
        Dev::L { p, n, v, br, ic } => format!("\nL {} {} {:?} {} {:?}", p, n, v, br, ic),
        Dev::V { p, n, dc, ac, wave, br } => {
            format!("\nV {} {} {:?} {:?} {} {}", p, n, dc, ac, dump_wave(wave), br)
        }
        Dev::I { p, n, dc, ac, wave } => {
            format!("\nI {} {} {:?} {:?} {}", p, n, dc, ac, dump_wave(wave))
        }
        Dev::D { p, n, is, nf } => format!("\nD {} {} {:?} {:?}", p, n, is, nf),
        Dev::M { d, g, s, kp, vt0, lambda, pmos } => {
            format!("\nM {} {} {} {:?} {:?} {:?} {}", d, g, s, kp, vt0, lambda, pmos)
        }
        Dev::E { p, n, cp, cn, k, br } => format!("\nE {} {} {} {} {:?} {}", p, n, cp, cn, k, br),
        Dev::G { p, n, cp, cn, k } => format!("\nG {} {} {} {} {:?}", p, n, cp, cn, k),
        Dev::Q { c, b, e, is, bf, br, pnp } => {
            format!("\nQ {} {} {} {:?} {:?} {:?} {}", c, b, e, is, bf, br, pnp)
        }
    }
}

fn same(a: &str, b: &str) {
    assert_eq!(dump(&read(a)), dump(&read(b)));
}

// ---- text

#[test]
fn text_words_and_lines() {
    assert_eq!(split_words("  ab\tc  d\u{2003}e "), vec!["ab", "c", "d", "e"]);
    assert!(split_words(" \t ").is_empty());
    assert_eq!(split_lines("a\n\nb"), vec!["a", "", "b"]);
    assert_eq!(trim("\r x y \n"), "x y");
    assert_eq!(trim("  "), "");
}

#[test]
fn text_letters() {
    assert_eq!(lower('Z'), 'z');
    assert_eq!(lower('['), '[');
    assert_eq!(lower('\u{c4}'), '\u{c4}');
    assert!(space('\u{3000}'));
    assert!(!space('_'));
    assert_eq!(chars_of("a\u{e9}b"), vec!['a', '\u{e9}', 'b']);
    assert_eq!(string_of(&chars_of("hello"), 1, 3), "el");
}

#[test]
fn text_comparisons() {
    assert!(starts_with("meg5", "meg"));
    assert!(!starts_with("me", "meg"));
    assert_eq!(behind("ic=5", "ic"), Some("=5".to_string()));
    assert_eq!(behind("ic=5", "m"), None);
    assert!(equal("dec", "dec"));
    assert!(!equal("dec", "de"));
    assert!(lists(&toks("a b c"), "b"));
    assert!(!lists(&toks("a b c"), "bc"));
}

#[test]
fn text_joining() {
    assert_eq!(join(&toks("a b c"), ","), "a,b,c");
    assert_eq!(join(&toks("a"), ","), "a");
    assert_eq!(join(&toks(""), ","), "");
    assert_eq!(show_usize(0), "0");
    assert_eq!(show_usize(10), "10");
    assert_eq!(show_usize(4096), "4096");
}

// ---- numbers

#[test]
fn numbers_with_units() {
    assert_eq!(value("4.7k"), 4.7 * 1e3);
    assert_eq!(value("100n"), 100.0 * 1e-9);
    assert_eq!(value("1meg"), 1e6);
    assert_eq!(value("1m"), 1e-3);
    assert_eq!(value("2t"), 2e12);
    assert_eq!(value("3g"), 3e9);
    assert_eq!(value("5u"), 5.0 * 1e-6);
    assert_eq!(value("7p"), 7.0 * 1e-12);
    assert_eq!(value("9f"), 9.0 * 1e-15);
}

#[test]
fn numbers_take_the_longest_beginning() {
    assert_eq!(value("1e3"), 1000.0);
    assert_eq!(value("1e3k"), 1e6);
    assert_eq!(value("-1.5"), -1.5);
    assert_eq!(value("10kohm"), 1e4);
    assert_eq!(value("3volts"), 3.0);
    assert_eq!(value("2.5e"), 2.5);
    assert_eq!(value(" 5 "), 5.0);
    assert_eq!(value("+5"), 5.0);
    assert_eq!(value(".5k"), 500.0);
    assert_eq!(value("5.u"), 5.0 * 1e-6);
    assert_eq!(value("inf"), f64::INFINITY);
    assert_eq!(value("-INFINITYk"), f64::NEG_INFINITY);
    assert!(value("NaN").is_nan());
}

#[test]
fn numbers_refused() {
    assert!(num::<F>("").is_none());
    assert!(num::<F>("abc").is_none());
    assert!(num::<F>("k1").is_none());
    for word in ["dc", "ac", "sin", "pulse", "pwl", "e3", "+", "-.", "i", "nmos", "_1"] {
        assert!(num::<F>(word).is_none(), "{}", word);
    }
    assert!(num::<F>("1\u{3bc}").is_none());
    match numx::<F>("x1") {
        Err(e) => assert_eq!(e.message(), "bad number 'x1'"),
        Ok(_) => panic!("accepted"),
    }
    assert_eq!(numx::<F>("2k").ok(), Some(F(2000.0)));
}

// ---- tokens

#[test]
fn tokens_by_place() {
    let t = toks("r1 a 0 1k");
    assert_eq!(tok(&t, 3).ok(), Some("1k"));
    assert!(matches!(tok(&t, 4), Err(ParseError::MissingToken)));
}

#[test]
fn parameters_by_key() {
    let t = toks("nf=3 n=2 n=5 is=1f");
    assert_eq!(pval(&t, "n", F(1.0)).ok(), Some(F(2.0)));
    assert_eq!(pval(&t, "is", F(1.0)).ok(), Some(F(1e-15)));
    assert_eq!(pval(&t, "cjo", F(7.0)).ok(), Some(F(7.0)));
    match pval(&toks("n=x"), "n", F(1.0)) {
        Err(e) => assert_eq!(e.message(), "bad number 'x'"),
        Ok(_) => panic!("accepted"),
    }
}

#[test]
fn source_values() {
    let (dc, ac, wave) = src_spec::<F>(&toks("dc 5 ac 2")).ok().unwrap();
    assert_eq!((dc, ac), (F(5.0), F(2.0)));
    assert!(wave.is_none());
    let (dc, ac, _) = src_spec::<F>(&toks("3 ac")).ok().unwrap();
    assert_eq!((dc, ac), (F(3.0), F(1.0)));
    let (dc, ac, _) = src_spec::<F>(&toks("dc")).ok().unwrap();
    assert_eq!((dc, ac), (F(0.0), F(0.0)));
    let (dc, _, _) = src_spec::<F>(&toks("")).ok().unwrap();
    assert_eq!(dc, F(0.0));
}

#[test]
fn source_groups_in_any_order() {
    let groups = ["dc 5", "ac 2", "sin 1 2 50"];
    for order in [[0, 1, 2], [0, 2, 1], [1, 0, 2], [1, 2, 0], [2, 0, 1], [2, 1, 0]] {
        let line = order.map(|k| groups[k]).join(" ");
        let (dc, ac, w) = src_spec::<F>(&toks(&line)).ok().unwrap();
        assert_eq!((dc, ac), (F(5.0), F(2.0)), "{}", line);
        assert_eq!(dump_wave(&w), "sin F(1.0) F(2.0) F(50.0) F(0.0) F(0.0)", "{}", line);
    }
    // what is left out is zero or none
    let (dc, ac, w) = src_spec::<F>(&toks("pwl 0 1 2 3 ac")).ok().unwrap();
    assert_eq!((dc, ac), (F(0.0), F(1.0)));
    assert_eq!(dump_wave(&w), "pwl [(F(0.0), F(1.0)), (F(2.0), F(3.0))] F(0.0)");
    // a value without a keyword
    same("t\nv1 a 0 5 ac 2 sin 1 2 50\n", "t\nv1 a 0 sin 1 2 50 ac 2 dc 5\n");
}

#[test]
fn source_courses() {
    let (_, _, w) = src_spec::<F>(&toks("sin 1 2 50 0.1")).ok().unwrap();
    assert_eq!(dump_wave(&w), "sin F(1.0) F(2.0) F(50.0) F(0.1) F(0.0)");
    let (_, _, w) = src_spec::<F>(&toks("pulse 0 5 1 2 3 4 20")).ok().unwrap();
    assert_eq!(
        dump_wave(&w),
        "pwl [(F(1.0), F(0.0)), (F(3.0), F(5.0)), (F(7.0), F(5.0)), (F(10.0), F(0.0))] F(20.0)"
    );
    let (_, _, w) = src_spec::<F>(&toks("pwl 0 1 2 3 4")).ok().unwrap();
    assert_eq!(dump_wave(&w), "pwl [(F(0.0), F(1.0)), (F(2.0), F(3.0))] F(0.0)");
}

#[test]
fn pulse_defaults() {
    // edges are never steeper than a picosecond, and without a width the
    // pulse does not end
    let (_, _, w) = src_spec::<F>(&toks("pulse 0 1")).ok().unwrap();
    match w {
        Some(Wave::Pwl { pts, per }) => {
            assert_eq!(pts[0], (F(0.0), F(0.0)));
            assert_eq!(pts[1], (F(1e-12), F(1.0)));
            assert_eq!(pts[2], (F(1e-12 + f64::MAX / 4.0), F(1.0)));
            assert_eq!(per, F(0.0));
        }
        _ => panic!("no corners"),
    }
}

#[test]
fn corners_are_needed() {
    match src_spec::<F>(&toks("pwl 1")) {
        Err(e) => assert_eq!(e.message(), "pwl needs time/value pairs"),
        Ok(_) => panic!("accepted"),
    }
}

// ---- netlists

#[test]
fn title_and_comments_are_ignored() {
    let plain = "title\nr1 a 0 1k\nv1 a 0 5\n.op\n";
    same("r9 x y 1\nr1 a 0 1k\nv1 a 0 5\n.op\n", plain);
    same("title\n* comment\n\nr1 a 0 1k ; load\n   \nv1 a 0 5;x\n*\n.op\n", plain);
}

#[test]
fn case_and_brackets_are_ignored() {
    same(
        "T\nV1 IN 0 PULSE(0,1,0 1N 1N 1 2)\nR1 in GND 1K\n.PRINT V(IN)\n",
        "t\nv1 in 0 pulse 0 1 0 1n 1n 1 2\nr1 in 0 1k\n.print v in\n",
    );
}

#[test]
fn continuation_lines() {
    same("t\nv1 a 0\n+ pwl(0 0\n+ 1 2)\nr1 a 0 1\n", "t\nv1 a 0 pwl 0 0 1 2\nr1 a 0 1\n");
    assert_eq!(fault("t\n+ r1 a 0 1\n"), "continuation line without a preceding line");
}

#[test]
fn nothing_counts_after_the_end() {
    same("t\nr1 a 0 1\n.end\nr2 b 0 zzz\n.op\n", "t\nr1 a 0 1\n");
}

#[test]
fn nodes_and_ground() {
    let c = read("t\nr1 a gnd 1\nr2 b a 2\nr3 0 b 3\n");
    assert_eq!(c.nodes, vec!["0", "a", "b"]);
    assert_eq!(
        dump(&c),
        "[\"r1\", \"r2\", \"r3\"] [\"0\", \"a\", \"b\"] [] 0\nR 1 0 F(1.0)\nR 2 1 F(2.0)\nR 0 2 F(3.0)"
    );
}

#[test]
fn branches_are_numbered_behind_the_nodes() {
    let c = read("t\nv1 a 0 1\nr1 a b 1\nl1 b 0 1m\ne1 c 0 a b 2\nr2 c 0 1\n");
    assert_eq!(c.nb, 3);
    let br: Vec<usize> = c
        .devs
        .iter()
        .filter_map(|d| match d {
            Dev::V { br, .. } => Some(*br),
            Dev::L { br, .. } => Some(*br),
            Dev::E { br, .. } => Some(*br),
            _ => None,
        })
        .collect();
    assert_eq!(br, vec![4, 5, 6]);
}

#[test]
fn instance_parameters_override_models() {
    let c = read("t\n.model dx d is=1e-12 n=2\nd1 a 0 dx n=1.5\nd2 a 0 dx\n");
    assert_eq!(dump_dev(&c.devs[0]), "\nD 1 0 F(1e-12) F(1.5)");
    assert_eq!(dump_dev(&c.devs[1]), "\nD 1 0 F(1e-12) F(2.0)");
    // the last definition of a model counts, wherever it stands
    same(
        "t\n.model x d is=1\nd1 a 0 x\n.model x d is=2\n",
        "t\nd1 a 0 is=2\n",
    );
}

#[test]
fn instance_thresholds_override_models() {
    // whichever of the two spellings stands where
    let own = "\nM 1 2 0 F(0.0002) F(-1.0) F(0.0) false";
    for (lent, given) in [("vt0", "vto"), ("vto", "vt0"), ("vt0", "vt0"), ("vto", "vto")] {
        let c = read(&format!("t\n.model jm njf {}=-3\nj1 d g 0 jm {}=-1\n", lent, given));
        assert_eq!(c.devs.len(), 1);
        assert_eq!(dump_dev(&c.devs[0]), own);
    }
    // without one of its own the transistor takes the threshold of the model
    let c = read("t\n.model jm njf vt0=-3 vto=-4\nj1 d g 0 jm\nj2 d g 0\n");
    assert_eq!(dump_dev(&c.devs[0]), "\nM 1 2 0 F(0.0002) F(-3.0) F(0.0) false");
    assert_eq!(dump_dev(&c.devs[1]), "\nM 1 2 0 F(0.0002) F(-2.0) F(0.0) false");
}

#[test]
fn bulk_terminal_is_ignored() {
    same("t\nm1 d g s 0 nmos kp=1m vt0=1\n", "t\nm1 d g s zzz nmos kp=1m vt0=1\n");
}

#[test]
fn transistor_defaults() {
    let c = read("t\nm1 d g 0 0 pmos\nj1 d g 0 njf\nq1 d g 0 pnp\nd1 d 0\n");
    assert_eq!(dump_dev(&c.devs[0]), "\nM 1 2 0 F(2e-5) F(0.0) F(0.0) true");
    assert_eq!(dump_dev(&c.devs[1]), "\nM 1 2 0 F(0.0002) F(-2.0) F(0.0) false");
    assert_eq!(dump_dev(&c.devs[2]), "\nQ 1 2 0 F(1e-16) F(100.0) F(1.0) true");
    assert_eq!(dump_dev(&c.devs[3]), "\nD 1 0 F(1e-14) F(1.0)");
    // both spellings of the threshold
    let c = read("t\nm1 d g 0 0 vto=3\nm2 d g 0 0 vto=3 vt0=4\n");
    assert_eq!(dump_dev(&c.devs[0]), "\nM 1 2 0 F(2e-5) F(3.0) F(0.0) false");
    assert_eq!(dump_dev(&c.devs[1]), "\nM 1 2 0 F(2e-5) F(4.0) F(0.0) false");
}

#[test]
fn capacitances_become_capacitors() {
    let c = read("t\nd1 a b cjo=1p\nm1 d g s 0 cgs=2p cgd=3p\nq1 c b e pnp cje=4p cjc=5p mj=0.3\n");
    assert_eq!(c.names, vec!["d1", "c.d1", "m1", "c.m1", "c.m1", "q1", "c.q1", "c.q1"]);
    assert_eq!(c.nodes, vec!["0", "a", "b", "d", "g", "s", "c", "e"]);
    assert_eq!(dump_dev(&c.devs[1]), "\nC 1 2 F(1e-12) F(NaN) F(0.5)");
    assert_eq!(dump_dev(&c.devs[3]), "\nC 4 5 F(2e-12) F(NaN) F(0.0)");
    assert_eq!(dump_dev(&c.devs[4]), "\nC 4 3 F(3e-12) F(NaN) F(0.0)");
    assert_eq!(dump_dev(&c.devs[6]), "\nC 7 2 F(4e-12) F(NaN) F(0.3)");
    assert_eq!(dump_dev(&c.devs[7]), "\nC 6 2 F(5e-12) F(NaN) F(0.3)");
}

#[test]
fn passive_parameters() {
    let c = read("t\nc1 a 0 1u ic=5 m=0.5\nl1 a 0 1m ic=2m\ng1 a 0 b 0 3\nr1 b 0 1\n");
    assert_eq!(dump_dev(&c.devs[0]), "\nC 1 0 F(1e-6) F(5.0) F(0.5)");
    assert_eq!(dump_dev(&c.devs[1]), "\nL 1 0 F(0.001) 3 F(0.002)");
    assert_eq!(dump_dev(&c.devs[2]), "\nG 1 0 2 0 F(3.0)");
}

#[test]
fn analysis_cards() {
    let c = read("t\nv1 a 0 1\n.op\n.dc v1 0 5 0.5\n.tran 1u 1m uic\n.ac dec 10 1 1k\n.ac lin 2.9 1 2\n");
    assert_eq!(c.analyses.len(), 5);
    assert!(matches!(c.analyses[0], Analysis::Op));
    assert!(matches!(&c.analyses[1], Analysis::Dc { src, stop: F(s), .. } if src == "v1" && *s == 5.0));
    assert!(matches!(c.analyses[2], Analysis::Tran { uic: true, .. }));
    assert!(matches!(c.analyses[3], Analysis::Ac { dec: true, n: 10, .. }));
    assert!(matches!(c.analyses[4], Analysis::Ac { dec: false, n: 2, .. }));
}

#[test]
fn print_cards() {
    let c = read("t\nv1 a 0 1\n.print v(a) i(v1)\n.print v(b) x\n");
    assert_eq!(c.prints, vec!["v(a)", "i(v1)", "v(b)"]);
}

#[test]
fn unknown_cards_are_reported() {
    let p = parse::<F>("t\n.foo 1\nr1 a 0 1\n.options x\n");
    assert_eq!(p.ignored, vec!["foo", "options"]);
    assert!(p.circuit.is_ok());
}

#[test]
fn cards_before_a_fault_are_reported() {
    let p = parse::<F>("t\n.foo 1\nz1 a 0 1\n.bar\n");
    assert_eq!(p.ignored, vec!["foo"]);
    assert!(matches!(p.circuit, Err(ParseError::UnknownDevice(_))));
}

#[test]
fn faulty_netlists() {
    assert_eq!(fault("t\nr1 a 0\n"), "missing token on device or analysis line");
    assert_eq!(fault("t\nr1 a\n"), "missing token on device or analysis line");
    assert_eq!(fault("t\nq1 a b\n"), "missing token on device or analysis line");
    assert_eq!(fault("t\n.dc\n"), "missing token on device or analysis line");
    assert_eq!(fault("t\n.tran 1u\n"), "missing token on device or analysis line");
    assert_eq!(fault("t\nr1 a 0 x\n"), "bad number 'x'");
    assert_eq!(fault("t\nd1 a 0 is=y\n"), "bad number 'y'");
    assert_eq!(fault("t\nv1 a 0 pwl(1)\n"), "pwl needs time/value pairs");
    assert_eq!(fault("t\n.ac oct 1 1 2\n"), "only .ac dec and .ac lin are supported");
    assert_eq!(fault("t\nx1 a 0 1\n"), "unknown device 'x1'");
    assert!(matches!(parse::<F>("t\nv1 a\n").circuit, Err(ParseError::BareSource)));
    assert!(matches!(parse::<F>("t\ni1\n").circuit, Err(ParseError::BareSource)));
}

#[test]
fn empty_netlists() {
    let c = read("");
    assert_eq!(c.nodes, vec!["0"]);
    assert!(c.devs.is_empty() && c.analyses.is_empty());
    let c = read("only a title");
    assert!(c.devs.is_empty());
}
