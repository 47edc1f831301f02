//! Circuits: devices, sources, analyses and the names of the unknowns.
use vstd::prelude::*;

use crate::num::Real;
use crate::text;

verus! {

/// The time course of a source.
pub enum Wave<R> {
    Sin { vo: R, va: R, fr: R, td: R, theta: R },
    /// Corners in time order, repeated with the period `per` where that is
    /// positive.
    Pwl { pts: Vec<(R, R)>, per: R },
}

pub enum WaveModel<R> {
    Sin { vo: R, va: R, fr: R, td: R, theta: R },
    Pwl { pts: Seq<(R, R)>, per: R },
}

impl<R> View for Wave<R> {
    type V = WaveModel<R>;

    open spec fn view(&self) -> WaveModel<R> {
        match self {
            Wave::Sin { vo, va, fr, td, theta } => WaveModel::Sin {
                vo: *vo,
                va: *va,
                fr: *fr,
                td: *td,
                theta: *theta,
            },
            Wave::Pwl { pts, per } => WaveModel::Pwl { pts: pts@, per: *per },
        }
    }
}

/// The model of a source that may have a time course.
pub open spec fn course<R>(wave: Option<Wave<R>>) -> Option<WaveModel<R>> {
    match wave {
        Some(w) => Some(w@),
        None => None,
    }
}

/// A device. `br` is the unknown of the branch current.
pub enum Dev<R> {
    /// Resistor.
    R { p: usize, n: usize, v: R },
    /// Capacitor, graded junction for a positive grading `m`.
    C { p: usize, n: usize, v: R, ic: R, m: R },
    /// Inductor.
    L { p: usize, n: usize, v: R, br: usize, ic: R },
    /// Voltage source.
    V { p: usize, n: usize, dc: R, ac: R, wave: Option<Wave<R>>, br: usize },
    /// Current source.
    I { p: usize, n: usize, dc: R, ac: R, wave: Option<Wave<R>> },
    /// Diode.
    D { p: usize, n: usize, is: R, nf: R },
    /// Square law field effect transistor.
    M { d: usize, g: usize, s: usize, kp: R, vt0: R, lambda: R, pmos: bool },
    /// Voltage controlled voltage source.
    E { p: usize, n: usize, cp: usize, cn: usize, k: R, br: usize },
    /// Voltage controlled current source.
    G { p: usize, n: usize, cp: usize, cn: usize, k: R },
    /// Bipolar transistor.
    Q { c: usize, b: usize, e: usize, is: R, bf: R, br: R, pnp: bool },
}

pub enum DevModel<R> {
    R { p: usize, n: usize, v: R },
    C { p: usize, n: usize, v: R, ic: R, m: R },
    L { p: usize, n: usize, v: R, br: usize, ic: R },
    V { p: usize, n: usize, dc: R, ac: R, wave: Option<WaveModel<R>>, br: usize },
    I { p: usize, n: usize, dc: R, ac: R, wave: Option<WaveModel<R>> },
    D { p: usize, n: usize, is: R, nf: R },
    M { d: usize, g: usize, s: usize, kp: R, vt0: R, lambda: R, pmos: bool },
    E { p: usize, n: usize, cp: usize, cn: usize, k: R, br: usize },
    G { p: usize, n: usize, cp: usize, cn: usize, k: R },
    Q { c: usize, b: usize, e: usize, is: R, bf: R, br: R, pnp: bool },
}

impl<R> View for Dev<R> {
    type V = DevModel<R>;

    open spec fn view(&self) -> DevModel<R> {
        match *self {
            Dev::R { p, n, v } => DevModel::R { p, n, v },
            Dev::C { p, n, v, ic, m } => DevModel::C { p, n, v, ic, m },
            Dev::L { p, n, v, br, ic } => DevModel::L { p, n, v, br, ic },
            Dev::V { p, n, dc, ac, wave, br } => DevModel::V {
                p,
                n,
                dc,
                ac,
                wave: course(wave),
                br,
            },
            Dev::I { p, n, dc, ac, wave } => DevModel::I { p, n, dc, ac, wave: course(wave) },
            Dev::D { p, n, is, nf } => DevModel::D { p, n, is, nf },
            Dev::M { d, g, s, kp, vt0, lambda, pmos } => DevModel::M {
                d,
                g,
                s,
                kp,
                vt0,
                lambda,
                pmos,
            },
            Dev::E { p, n, cp, cn, k, br } => DevModel::E { p, n, cp, cn, k, br },
            Dev::G { p, n, cp, cn, k } => DevModel::G { p, n, cp, cn, k },
            Dev::Q { c, b, e, is, bf, br, pnp } => DevModel::Q { c, b, e, is, bf, br, pnp },
        }
    }
}

/// An analysis that the netlist asks for.
pub enum Analysis<R> {
    Op,
    Dc { src: String, start: R, stop: R, step: R },
    Tran { tstep: R, tstop: R, uic: bool },
    Ac { dec: bool, n: usize, f1: R, f2: R },
}

pub enum AnalysisModel<R> {
    Op,
    Dc { src: Seq<char>, start: R, stop: R, step: R },
    Tran { tstep: R, tstop: R, uic: bool },
    Ac { dec: bool, n: usize, f1: R, f2: R },
}

impl<R> View for Analysis<R> {
    type V = AnalysisModel<R>;

    open spec fn view(&self) -> AnalysisModel<R> {
        match *self {
            Analysis::Op => AnalysisModel::Op,
            Analysis::Dc { src, start, stop, step } => AnalysisModel::Dc {
                src: src@,
                start,
                stop,
                step,
            },
            Analysis::Tran { tstep, tstop, uic } => AnalysisModel::Tran { tstep, tstop, uic },
            Analysis::Ac { dec, n, f1, f2 } => AnalysisModel::Ac { dec, n, f1, f2 },
        }
    }
}

/// A circuit with what is to be computed of it. Node 0 is ground; the unknowns
/// are the nodes, followed by the branch currents.
pub struct Circuit<R> {
    pub devs: Vec<Dev<R>>,
    pub names: Vec<String>,
    pub nodes: Vec<String>,
    pub analyses: Vec<Analysis<R>>,
    pub prints: Vec<String>,
    pub nb: usize,
}

#[verifier::ext_equal]
pub struct CircuitModel<R> {
    pub devs: Seq<DevModel<R>>,
    pub names: Seq<Seq<char>>,
    pub nodes: Seq<Seq<char>>,
    pub analyses: Seq<AnalysisModel<R>>,
    pub prints: Seq<Seq<char>>,
    pub nb: int,
}

pub open spec fn dev_models<R>(v: Seq<Dev<R>>) -> Seq<DevModel<R>> {
    Seq::new(v.len(), |i: int| v[i]@)
}

pub open spec fn analysis_models<R>(v: Seq<Analysis<R>>) -> Seq<AnalysisModel<R>> {
    Seq::new(v.len(), |i: int| v[i]@)
}

impl<R> View for Circuit<R> {
    type V = CircuitModel<R>;

    open spec fn view(&self) -> CircuitModel<R> {
        CircuitModel {
            devs: dev_models(self.devs@),
            names: text::texts(self.names@),
            nodes: text::texts(self.nodes@),
            analyses: analysis_models(self.analyses@),
            prints: text::texts(self.prints@),
            nb: self.nb as int,
        }
    }
}

impl<R> DevModel<R> {
    /// The device has a branch current among the unknowns.
    pub open spec fn has_branch(self) -> bool {
        self is L || self is V || self is E
    }

    /// The unknown of the branch current.
    pub open spec fn branch(self) -> int {
        match self {
            DevModel::L { br, .. } => br as int,
            DevModel::V { br, .. } => br as int,
            DevModel::E { br, .. } => br as int,
            _ => 0,
        }
    }

    /// The device with the branch current at the unknown `to`.
    pub open spec fn on_branch(self, to: usize) -> Self {
        match self {
            DevModel::L { p, n, v, br, ic } => DevModel::L { p, n, v, br: to, ic },
            DevModel::V { p, n, dc, ac, wave, br } => DevModel::V { p, n, dc, ac, wave, br: to },
            DevModel::E { p, n, cp, cn, k, br } => DevModel::E { p, n, cp, cn, k, br: to },
            _ => self,
        }
    }

    /// Every terminal is one of `nn` nodes, and a time course has corners.
    pub open spec fn placed(self, nn: int) -> bool {
        match self {
            DevModel::R { p, n, .. } => p < nn && n < nn,
            DevModel::C { p, n, .. } => p < nn && n < nn,
            DevModel::L { p, n, .. } => p < nn && n < nn,
            DevModel::V { p, n, wave, .. } => p < nn && n < nn && cornered(wave),
            DevModel::I { p, n, wave, .. } => p < nn && n < nn && cornered(wave),
            DevModel::D { p, n, .. } => p < nn && n < nn,
            DevModel::M { d, g, s, .. } => d < nn && g < nn && s < nn,
            DevModel::E { p, n, cp, cn, .. } => p < nn && n < nn && cp < nn && cn < nn,
            DevModel::G { p, n, cp, cn, .. } => p < nn && n < nn && cp < nn && cn < nn,
            DevModel::Q { c, b, e, .. } => c < nn && b < nn && e < nn,
        }
    }
}

/// A piecewise linear time course has at least one corner.
pub open spec fn cornered<R>(wave: Option<WaveModel<R>>) -> bool {
    match wave {
        Some(WaveModel::Pwl { pts, .. }) => pts.len() > 0,
        _ => true,
    }
}

/// The number of branch currents among the first `i` devices.
pub open spec fn branch_count<R>(devs: Seq<DevModel<R>>, i: int) -> int
    decreases i,
{
    if i <= 0 {
        0
    } else if devs[i - 1].has_branch() {
        branch_count(devs, i - 1) + 1
    } else {
        branch_count(devs, i - 1)
    }
}

impl<R> CircuitModel<R> {
    /// The number of unknowns, ground included.
    pub open spec fn unknowns(self) -> int {
        self.nodes.len() + self.nb
    }

    /// Devices sit on nodes that exist, and the branch currents are numbered
    /// one after the other behind the nodes.
    pub open spec fn wf(self) -> bool {
        &&& self.nodes.len() > 0
        &&& self.names.len() == self.devs.len()
        &&& self.unknowns() <= usize::MAX
        &&& self.nb == branch_count(self.devs, self.devs.len() as int)
        &&& forall|i: int|
            0 <= i < self.devs.len() ==> (#[trigger] self.devs[i]).placed(self.nodes.len() as int)
        &&& forall|i: int|
            0 <= i < self.devs.len() && (#[trigger] self.devs[i]).has_branch()
                ==> self.devs[i].branch() == self.nodes.len() + branch_count(self.devs, i)
    }

    /// The names of the branch devices among the first `i` devices.
    pub open spec fn branch_names(self, i: int) -> Seq<Seq<char>>
        decreases i,
    {
        if i <= 0 {
            Seq::empty()
        } else if self.devs[i - 1].has_branch() {
            self.branch_names(i - 1).push(self.names[i - 1])
        } else {
            self.branch_names(i - 1)
        }
    }

    /// The names of all branch devices, in the order of their unknowns.
    pub open spec fn branches(self) -> Seq<Seq<char>> {
        self.branch_names(self.devs.len() as int)
    }
}

pub proof fn lemma_branch_count<R>(devs: Seq<DevModel<R>>, i: int, j: int)
    requires
        0 <= i <= j <= devs.len(),
    ensures
        0 <= branch_count(devs, i) <= branch_count(devs, j) <= j,
        i < j && devs[i].has_branch() ==> branch_count(devs, i) < branch_count(devs, j),
    decreases j,
{
    if i < j {
        lemma_branch_count(devs, i, j - 1);
    } else if 0 < i {
        lemma_branch_count(devs, i - 1, j - 1);
    }
}

/// Two branch devices never share an unknown, and a branch unknown is neither
/// a node nor beyond the unknowns.
pub proof fn branches_are_apart<R>(c: CircuitModel<R>, i: int, j: int)
    requires
        c.wf(),
        0 <= i < j < c.devs.len(),
        c.devs[i].has_branch(),
        c.devs[j].has_branch(),
    ensures
        c.nodes.len() <= c.devs[i].branch() < c.devs[j].branch() < c.unknowns(),
{
    let n = c.devs.len() as int;
    lemma_branch_count(c.devs, 0, i);
    lemma_branch_count(c.devs, i, j);
    lemma_branch_count(c.devs, j, n);
}

/// The branch unknown of a device lies behind the nodes and among the
/// unknowns.
pub proof fn lemma_branch_placed<R>(c: CircuitModel<R>, i: int)
    requires
        c.wf(),
        0 <= i < c.devs.len(),
        c.devs[i].has_branch(),
    ensures
        c.nodes.len() <= c.devs[i].branch() < c.unknowns(),
{
    lemma_branch_count(c.devs, 0, i);
    lemma_branch_count(c.devs, i, c.devs.len() as int);
}

pub proof fn lemma_branch_names<R>(c: CircuitModel<R>, i: int)
    requires
        0 <= i <= c.devs.len(),
    ensures
        c.branch_names(i).len() == branch_count(c.devs, i),
    decreases i,
{
    if i > 0 {
        lemma_branch_names(c, i - 1);
    }
}

impl<R: Real> Dev<R> {
    pub fn has_branch(&self) -> (r: bool)
        ensures
            r == self@.has_branch(),
    {
        match self {
            Dev::L { .. } => true,
            Dev::V { .. } => true,
            Dev::E { .. } => true,
            _ => false,
        }
    }
}

/// The names of the devices whose currents are unknowns, in the order of these
/// unknowns.
pub fn branches<R: Real>(ckt: &Circuit<R>) -> (r: Vec<String>)
    requires
        ckt@.wf(),
    ensures
        text::texts(r@) == ckt@.branches(),
{
    let mut out: Vec<String> = Vec::new();
    let mut i: usize = 0;
    proof {
        assert(text::texts(out@) =~= ckt@.branch_names(0));
    }
    while i < ckt.devs.len()
        invariant
            i <= ckt.devs@.len(),
            ckt@.wf(),
            text::texts(out@) == ckt@.branch_names(i as int),
        decreases ckt.devs@.len() - i,
    {
        if ckt.devs[i].has_branch() {
            let ghost was = text::texts(out@);
            out.push(ckt.names[i].clone());
            proof {
                assert(text::texts(out@) =~= was.push(ckt@.names[i as int]));
            }
        }
        i = i + 1;
    }
    out
}

/// The name of unknown `i` in a message.
pub open spec fn unknown_label<R>(c: CircuitModel<R>, i: int) -> Seq<char> {
    if i < c.nodes.len() {
        "node "@ + c.nodes[i]
    } else if i - c.nodes.len() < c.branches().len() {
        "branch "@ + c.branches()[i - c.nodes.len()]
    } else {
        "unknown "@ + text::digits(i as nat)
    }
}

pub fn unk_name<R: Real>(ckt: &Circuit<R>, i: usize) -> (r: String)
    requires
        ckt@.wf(),
    ensures
        r@ == unknown_label(ckt@, i as int),
{
    if i < ckt.nodes.len() {
        let mut s = "node ".to_owned();
        s.append(ckt.nodes[i].as_str());
        return s;
    }
    let names = branches(ckt);
    proof {
        assert(text::texts(names@).len() == names@.len());
    }
    let k: usize = i - ckt.nodes.len();
    if k < names.len() {
        proof {
            assert(text::texts(names@)[k as int] == names@[k as int]@);
        }
        let mut s = "branch ".to_owned();
        s.append(names[k].as_str());
        s
    } else {
        let mut s = "unknown ".to_owned();
        s.append(text::show_usize(i).as_str());
        s
    }
}

} // verus!
