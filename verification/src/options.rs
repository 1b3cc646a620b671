use crate::text::{decimal, push_decimal};
use vstd::prelude::*;

verus! {

/// The verification engine to run.
#[derive(Clone, Copy, PartialEq, Eq, Structural, Debug)]
pub enum Engine {
    IC3,
    Kind,
    BMC,
    Portfolio,
}

/// Options of k-induction.
#[derive(Clone, Copy, PartialEq, Eq, Structural, Debug)]
pub struct KindOptions {
    pub no_bmc: bool,
    pub kind_kissat: bool,
    pub simple_path: bool,
}

/// Options of preprocessing.
#[derive(Clone, Copy, PartialEq, Eq, Structural, Debug)]
pub struct PreprocessOptions {
    pub sec: bool,
    pub no_abc: bool,
}

/// Options of bounded model checking.
#[derive(Clone, Copy, PartialEq, Eq, Structural, Debug)]
pub struct BMCOptions {
    pub time_limit: Option<u64>,
    pub bmc_kissat: bool,
    pub bmc_max_k: usize,
}

/// Options of IC3.
#[derive(Clone, Copy, PartialEq, Eq, Structural, Debug)]
pub struct IC3Options {
    pub dynamic: bool,
    pub ctg: bool,
    pub ctg_max: usize,
    pub ctg_limit: usize,
    pub ctp: bool,
    pub inn: bool,
    pub abs_cst: bool,
    pub no_pred_prop: bool,
}

/// The options of a run.
#[derive(Clone, Debug)]
pub struct Options {
    pub engine: Engine,
    /// The path of the model.
    pub model: String,
    pub step: u32,
    pub rseed: u64,
    pub bmc: BMCOptions,
    pub ic3: IC3Options,
    pub kind: KindOptions,
    pub preprocess: PreprocessOptions,
    /// Where to write a certificate or witness.
    pub certificate: Option<String>,
    /// Check the certificate.
    pub certify: bool,
    /// Print the witness.
    pub witness: bool,
    /// The time limit of each engine, in seconds.
    pub timeout: Option<u64>,
    pub interrupt_statistic: bool,
}

/// `t` when `b` holds, else nothing.
#[verifier::opaque]
pub open spec fn flag(b: bool, t: Seq<char>) -> Seq<char> {
    if b {
        t
    } else {
        Seq::empty()
    }
}

/// The command-line form of an engine.
pub open spec fn engine_text(e: Engine) -> Seq<char> {
    match e {
        Engine::BMC => "-e bmc"@,
        Engine::IC3 => "-e ic3"@,
        Engine::Kind => "-e kind"@,
        Engine::Portfolio => "-e portfolio"@,
    }
}

/// The command-line form of the options of k-induction that differ from
/// the defaults.
pub open spec fn kind_text(k: KindOptions) -> Seq<char> {
    flag(k.no_bmc, " --kind-no-bmc"@) + flag(k.kind_kissat, " --kind-kissat"@) + flag(
        k.simple_path,
        " --kind-simple-path"@,
    )
}

/// The command-line form of the preprocessing options that are set.
pub open spec fn preprocess_text(p: PreprocessOptions) -> Seq<char> {
    flag(p.sec, " --sec"@) + flag(p.no_abc, " --no-abc"@)
}

/// The command-line form of the options of bounded model checking that
/// differ from the defaults.
pub open spec fn bmc_text(b: BMCOptions) -> Seq<char> {
    (match b.time_limit {
        Some(x) => " --bmc-time-limit "@ + decimal(x as nat),
        None => Seq::empty(),
    }) + flag(b.bmc_kissat, " --bmc-kissat"@) + flag(
        b.bmc_max_k < usize::MAX,
        " --bmc-max-k "@ + decimal(b.bmc_max_k as nat),
    )
}

/// The command-line form of the options of IC3 that differ from the
/// defaults; the limits of generalization by counterexamples to
/// generalization appear only with that generalization.
pub open spec fn ic3_text(o: IC3Options) -> Seq<char> {
    flag(o.dynamic, " --ic3-dynamic"@) + flag(
        o.ctg,
        " --ic3-ctg"@ + flag(o.ctg_max != 3, " --ic3-ctg-max "@ + decimal(o.ctg_max as nat)) + flag(
            o.ctg_limit != 1,
            " --ic3-ctg-limit "@ + decimal(o.ctg_limit as nat),
        ),
    ) + flag(o.ctp, " --ic3-ctp"@) + flag(o.inn, " --ic3-inn"@) + flag(o.abs_cst, " --ic3-abs-cst"@)
        + flag(o.no_pred_prop, " --ic3-no-pred-prop"@)
}

/// The command-line form of a run's options: the engine with its own
/// options, the step and seed when not the defaults, and preprocessing.
pub open spec fn options_text(o: Options) -> Seq<char> {
    engine_text(o.engine) + (match o.engine {
        Engine::BMC => bmc_text(o.bmc),
        Engine::IC3 => ic3_text(o.ic3),
        Engine::Kind => kind_text(o.kind),
        Engine::Portfolio => Seq::empty(),
    }) + flag(o.step != 1, " --step "@ + decimal(o.step as nat)) + flag(
        o.rseed != 0,
        " --rseed "@ + decimal(o.rseed as nat),
    ) + preprocess_text(o.preprocess)
}

/// `t` occurs in `s` as a contiguous part.
pub open spec fn occurs_in(t: Seq<char>, s: Seq<char>) -> bool {
    exists|i: int| 0 <= i && i + t.len() <= s.len() && #[trigger] s.subrange(i, i + t.len()) == t
}

/// The command-line form of any options, whatever the engine, starts with
/// the engine, holds ` --step` and the step whenever the step is not 1,
/// holds ` --rseed` and the seed whenever the seed is not 0, and ends with
/// the preprocessing flags.
pub proof fn law_options_text(o: Options)
    ensures
        options_text(o).take(engine_text(o.engine).len() as int) == engine_text(o.engine),
        o.step != 1 ==> occurs_in(" --step "@ + decimal(o.step as nat), options_text(o)),
        o.rseed != 0 ==> occurs_in(" --rseed "@ + decimal(o.rseed as nat), options_text(o)),
        options_text(o).skip(
            options_text(o).len() - preprocess_text(o.preprocess).len(),
        ) == preprocess_text(o.preprocess),
{
    let p1 = engine_text(o.engine);
    let own = match o.engine {
        Engine::BMC => bmc_text(o.bmc),
        Engine::IC3 => ic3_text(o.ic3),
        Engine::Kind => kind_text(o.kind),
        Engine::Portfolio => Seq::<char>::empty(),
    };
    let st = " --step "@ + decimal(o.step as nat);
    let rs = " --rseed "@ + decimal(o.rseed as nat);
    let p3 = flag(o.step != 1, st);
    let p4 = flag(o.rseed != 0, rs);
    let p5 = preprocess_text(o.preprocess);
    let t = options_text(o);
    assert(t == p1 + own + p3 + p4 + p5);
    assert(t.take(p1.len() as int) =~= p1);
    assert(t.skip(t.len() - p5.len()) =~= p5);
    if o.step != 1 {
        assert(p3 == st) by {
            reveal(flag);
        }
        let i = (p1 + own).len() as int;
        assert(t.subrange(i, i + st.len()) =~= st);
    }
    if o.rseed != 0 {
        assert(p4 == rs) by {
            reveal(flag);
        }
        let i = (p1 + own + p3).len() as int;
        assert(t.subrange(i, i + rs.len()) =~= rs);
    }
}

fn push_flag(f: &mut String, b: bool, t: &str)
    ensures
        final(f)@ == old(f)@ + flag(b, t@),
{
    reveal(flag);
    if b {
        f.append(t);
    } else {
        assert(old(f)@ + flag(b, t@) =~= old(f)@);
    }
}

impl Engine {
    /// Appends the command-line form of the engine.
    pub fn fmt(&self, f: &mut String)
        ensures
            final(f)@ == old(f)@ + engine_text(*self),
    {
        match self {
            Engine::BMC => f.append("-e bmc"),
            Engine::IC3 => f.append("-e ic3"),
            Engine::Kind => f.append("-e kind"),
            Engine::Portfolio => f.append("-e portfolio"),
        }
    }
}

impl KindOptions {
    /// Appends the command-line form of the options that differ from the
    /// defaults.
    pub fn fmt(&self, f: &mut String)
        ensures
            final(f)@ == old(f)@ + kind_text(*self),
    {
        push_flag(f, self.no_bmc, " --kind-no-bmc");
        push_flag(f, self.kind_kissat, " --kind-kissat");
        push_flag(f, self.simple_path, " --kind-simple-path");
        assert(final(f)@ =~= old(f)@ + kind_text(*self));
    }
}

impl PreprocessOptions {
    /// Appends the command-line form of the options that are set.
    pub fn fmt(&self, f: &mut String)
        ensures
            final(f)@ == old(f)@ + preprocess_text(*self),
    {
        push_flag(f, self.sec, " --sec");
        push_flag(f, self.no_abc, " --no-abc");
        assert(final(f)@ =~= old(f)@ + preprocess_text(*self));
    }
}

impl BMCOptions {
    /// Appends the command-line form of the options that differ from the
    /// defaults.
    pub fn fmt(&self, f: &mut String)
        ensures
            final(f)@ == old(f)@ + bmc_text(*self),
    {
        let ghost f0 = f@;
        if let Some(x) = self.time_limit {
            f.append(" --bmc-time-limit ");
            push_decimal(f, x);
        }
        let ghost p1 = match self.time_limit {
            Some(x) => " --bmc-time-limit "@ + decimal(x as nat),
            None => Seq::<char>::empty(),
        };
        assert(f@ =~= f0 + p1);
        push_flag(f, self.bmc_kissat, " --bmc-kissat");
        assert(f@ =~= f0 + (p1 + flag(self.bmc_kissat, " --bmc-kissat"@)));
        push_labeled(f, self.bmc_max_k < usize::MAX, " --bmc-max-k ", self.bmc_max_k as u64);
        assert(f@ =~= f0 + bmc_text(*self));
    }
}

fn push_labeled(f: &mut String, b: bool, label: &str, n: u64)
    ensures
        final(f)@ == old(f)@ + flag(b, label@ + decimal(n as nat)),
{
    reveal(flag);
    if b {
        f.append(label);
        push_decimal(f, n);
        assert(final(f)@ =~= old(f)@ + flag(b, label@ + decimal(n as nat)));
    } else {
        assert(old(f)@ + flag(b, label@ + decimal(n as nat)) =~= old(f)@);
    }
}

impl IC3Options {
    /// Appends the limits of generalization by counterexamples to
    /// generalization that differ from the defaults, after its flag.
    fn fmt_ctg(&self, f: &mut String)
        ensures
            final(f)@ == old(f)@ + " --ic3-ctg"@ + flag(
                self.ctg_max != 3,
                " --ic3-ctg-max "@ + decimal(self.ctg_max as nat),
            ) + flag(self.ctg_limit != 1, " --ic3-ctg-limit "@ + decimal(self.ctg_limit as nat)),
    {
        f.append(" --ic3-ctg");
        push_labeled(f, self.ctg_max != 3, " --ic3-ctg-max ", self.ctg_max as u64);
        push_labeled(f, self.ctg_limit != 1, " --ic3-ctg-limit ", self.ctg_limit as u64);
    }

    /// Appends the command-line form of the options that differ from the
    /// defaults.
    pub fn fmt(&self, f: &mut String)
        ensures
            final(f)@ == old(f)@ + ic3_text(*self),
    {
        let ghost f0 = f@;
        let ghost p1 = flag(self.dynamic, " --ic3-dynamic"@);
        let ghost p2 = flag(
            self.ctg,
            " --ic3-ctg"@ + flag(self.ctg_max != 3, " --ic3-ctg-max "@ + decimal(self.ctg_max as nat))
                + flag(self.ctg_limit != 1, " --ic3-ctg-limit "@ + decimal(self.ctg_limit as nat)),
        );
        let ghost p3 = flag(self.ctp, " --ic3-ctp"@);
        let ghost p4 = flag(self.inn, " --ic3-inn"@);
        let ghost p5 = flag(self.abs_cst, " --ic3-abs-cst"@);
        let ghost p6 = flag(self.no_pred_prop, " --ic3-no-pred-prop"@);
        push_flag(f, self.dynamic, " --ic3-dynamic");
        let ghost f1 = f@;
        if self.ctg {
            self.fmt_ctg(f);
        }
        assert(f@ =~= f1 + p2) by {
            reveal(flag);
        }
        push_flag(f, self.ctp, " --ic3-ctp");
        assert(f@ =~= f0 + (p1 + p2 + p3));
        push_flag(f, self.inn, " --ic3-inn");
        assert(f@ =~= f0 + (p1 + p2 + p3 + p4));
        push_flag(f, self.abs_cst, " --ic3-abs-cst");
        assert(f@ =~= f0 + (p1 + p2 + p3 + p4 + p5));
        push_flag(f, self.no_pred_prop, " --ic3-no-pred-prop");
        assert(f@ =~= f0 + (p1 + p2 + p3 + p4 + p5 + p6));
    }
}

impl Options {
    /// Appends the command-line form of the options: the engine with its
    /// own options, the step and seed when not the defaults, and
    /// preprocessing.
    pub fn fmt(&self, f: &mut String)
        ensures
            final(f)@ == old(f)@ + options_text(*self),
    {
        let ghost f0 = f@;
        let ghost own = match self.engine {
            Engine::BMC => bmc_text(self.bmc),
            Engine::IC3 => ic3_text(self.ic3),
            Engine::Kind => kind_text(self.kind),
            Engine::Portfolio => Seq::<char>::empty(),
        };
        let ghost p1 = engine_text(self.engine);
        let ghost p3 = flag(self.step != 1, " --step "@ + decimal(self.step as nat));
        let ghost p4 = flag(self.rseed != 0, " --rseed "@ + decimal(self.rseed as nat));
        let ghost p5 = preprocess_text(self.preprocess);
        self.engine.fmt(f);
        let ghost f1 = f@;
        match self.engine {
            Engine::BMC => self.bmc.fmt(f),
            Engine::IC3 => self.ic3.fmt(f),
            Engine::Kind => self.kind.fmt(f),
            Engine::Portfolio => {},
        }
        assert(f@ =~= f1 + own);
        assert(f@ =~= f0 + (p1 + own));
        push_labeled(f, self.step != 1, " --step ", self.step as u64);
        assert(f@ =~= f0 + (p1 + own + p3));
        push_labeled(f, self.rseed != 0, " --rseed ", self.rseed);
        assert(f@ =~= f0 + (p1 + own + p3 + p4));
        self.preprocess.fmt(f);
        assert(f@ =~= f0 + (p1 + own + p3 + p4 + p5));
    }

    /// The command-line form of the options.
    pub fn to_string(&self) -> (r: String)
        ensures
            r@ == options_text(*self),
            self.step != 1 ==> occurs_in(" --step "@ + decimal(self.step as nat), r@),
            self.rseed != 0 ==> occurs_in(" --rseed "@ + decimal(self.rseed as nat), r@),
    {
        proof {
            law_options_text(*self);
        }
        let mut f = String::new();
        self.fmt(&mut f);
        assert(f@ =~= options_text(*self));
        f
    }
}

} // verus!
