use crate::options::Options;
use crate::text::{
    lemma_split_spaces_nonempty, prefix_first, push_char, push_signed_decimal, signed_decimal,
    split_spaces, split_spaces_exec, string_views,
};
use vstd::prelude::*;

verus! {

/// What an engine of the portfolio reported: its verdict, its output, the
/// arguments it ran with, and its certificate.
pub struct Result<C> {
    pub proved: bool,
    pub output: Vec<u8>,
    pub config: String,
    pub certificate: Option<C>,
}

/// The state of a portfolio run, shared by the engines' watchers.
pub enum PortfolioState<C> {
    /// The engines are running; the number of them that have not exited.
    Checking(usize),
    /// An engine gave a verdict; its result, until it is taken.
    Finished(Option<Result<C>>),
    /// The run was stopped.
    Terminate,
}

impl<C> PortfolioState<C> {
    /// The state when `nt` engines start.
    pub fn new(nt: usize) -> (r: Self)
        ensures
            r == PortfolioState::<C>::Checking(nt),
    {
        PortfolioState::Checking(nt)
    }

    /// Whether the engines are still running without a verdict.
    pub fn is_checking(&self) -> (r: bool)
        ensures
            r == (*self is Checking),
    {
        match self {
            PortfolioState::Checking(_) => true,
            _ => false,
        }
    }

    /// Takes the result of the engine that gave a verdict.
    pub fn result(&mut self) -> (r: Result<C>)
        requires
            *old(self) matches PortfolioState::Finished(Some(_)),
        ensures
            *old(self) == PortfolioState::Finished(Some(r)),
            *final(self) == PortfolioState::<C>::Finished(None),
    {
        let mut st = PortfolioState::Finished(None);
        std::mem::swap(self, &mut st);
        match st {
            PortfolioState::Finished(Some(res)) => res,
            _ => unreached(),
        }
    }

    /// When an engine gives a verdict while the engines are running, its result
    /// becomes the run's, and the waiting run is to be woken (`true`);
    /// afterwards the verdict is dropped.
    pub fn finish(&mut self, res: Result<C>) -> (notify: bool)
        ensures
            notify == (*old(self) is Checking),
            notify ==> *final(self) == PortfolioState::Finished(Some(res)),
            !notify ==> *final(self) == *old(self),
            *final(self) == step(*old(self), PortfolioEvent::Verdict(res)),
    {
        if self.is_checking() {
            *self = PortfolioState::Finished(Some(res));
            true
        } else {
            false
        }
    }

    /// When an engine exits without a verdict while the engines are running,
    /// one fewer is; the waiting run is to be woken when none is left.
    pub fn engine_exited(&mut self) -> (notify: bool)
        requires
            *old(self) matches PortfolioState::Checking(np) ==> np > 0,
        ensures
            match *old(self) {
                PortfolioState::Checking(np) => *final(self) == PortfolioState::<C>::Checking(
                    (np - 1) as usize,
                ) && notify == (np == 1),
                _ => *final(self) == *old(self) && !notify,
            },
            *final(self) == step(*old(self), PortfolioEvent::<C>::Exited),
    {
        match self {
            PortfolioState::Checking(np) => {
                *np = *np - 1;
                *np == 0
            },
            _ => false,
        }
    }

    /// A stop was asked for: while the engines are running, the run is
    /// stopped and its engines are to be killed (`true`).
    pub fn request_terminate(&mut self) -> (kill: bool)
        ensures
            kill == (*old(self) is Checking),
            kill ==> *final(self) == PortfolioState::<C>::Terminate,
            !kill ==> *final(self) == *old(self),
            *final(self) == step(*old(self), PortfolioEvent::<C>::Stop),
    {
        if self.is_checking() {
            *self = PortfolioState::Terminate;
            true
        } else {
            false
        }
    }

    /// The run was woken: either all engines exited without a verdict
    /// (`None`), or one gave a verdict, whose result is taken.
    pub fn conclude(&mut self) -> (r: Option<Result<C>>)
        requires
            match *old(self) {
                PortfolioState::Checking(np) => np == 0,
                PortfolioState::Finished(Some(_)) => true,
                _ => false,
            },
        ensures
            match *old(self) {
                PortfolioState::Checking(_) => r is None && *final(self) == *old(self),
                _ => *old(self) == PortfolioState::Finished(r) && *final(self)
                    == PortfolioState::<C>::Finished(None),
            },
            *final(self) == step(*old(self), PortfolioEvent::<C>::Take),
    {
        if self.is_checking() {
            None
        } else {
            Some(self.result())
        }
    }
}

/// What happens to the state of a portfolio run.
pub enum PortfolioEvent<C> {
    /// An engine gave a verdict, with its result.
    Verdict(Result<C>),
    /// An engine exited without a verdict.
    Exited,
    /// A stop was asked for.
    Stop,
    /// The waiting run took the verdict, if one was given.
    Take,
}

/// The state after event `e` in state `s`.
pub open spec fn step<C>(s: PortfolioState<C>, e: PortfolioEvent<C>) -> PortfolioState<C> {
    match e {
        PortfolioEvent::Verdict(res) => if s is Checking {
            PortfolioState::Finished(Some(res))
        } else {
            s
        },
        PortfolioEvent::Exited => match s {
            PortfolioState::Checking(np) => PortfolioState::Checking((np - 1) as usize),
            _ => s,
        },
        PortfolioEvent::Stop => if s is Checking {
            PortfolioState::Terminate
        } else {
            s
        },
        PortfolioEvent::Take => match s {
            PortfolioState::Finished(Some(_)) => PortfolioState::Finished(None),
            _ => s,
        },
    }
}

/// The state after the events `evs`, from state `s`.
pub open spec fn run<C>(s: PortfolioState<C>, evs: Seq<PortfolioEvent<C>>) -> PortfolioState<C>
    decreases evs.len(),
{
    if evs.len() == 0 {
        s
    } else {
        step(run(s, evs.drop_last()), evs.last())
    }
}

/// The number of engine reports (verdicts and exits) among `evs`.
pub open spec fn engine_reports<C>(evs: Seq<PortfolioEvent<C>>) -> nat
    decreases evs.len(),
{
    if evs.len() == 0 {
        0
    } else {
        engine_reports(evs.drop_last()) + match evs.last() {
            PortfolioEvent::Verdict(_) | PortfolioEvent::Exited => 1nat,
            _ => 0nat,
        }
    }
}

/// The number of verdicts among `evs` that the run, from state `s`, kept.
pub open spec fn verdicts_kept<C>(s: PortfolioState<C>, evs: Seq<PortfolioEvent<C>>) -> nat
    decreases evs.len(),
{
    if evs.len() == 0 {
        0
    } else {
        verdicts_kept(s, evs.drop_last()) + if run(s, evs.drop_last()) is Checking
            && evs.last() is Verdict {
            1nat
        } else {
            0nat
        }
    }
}

/// A portfolio run of `n` engines, each of which reports once (a verdict or
/// an exit), among any stops and takes: while the engines are running,
/// the count of running engines is `n` less the reports so far, so an exit
/// never finds it at zero; at most one verdict is kept, and none while the
/// engines run; and once the run has stopped running it never runs again.
pub proof fn law_portfolio_run<C>(n: usize, evs: Seq<PortfolioEvent<C>>)
    requires
        engine_reports(evs) <= n,
    ensures
        run(PortfolioState::<C>::Checking(n), evs) matches PortfolioState::Checking(np) ==> np
            == n - engine_reports(evs),
        evs.len() > 0 && evs.last() is Exited ==> (run(
            PortfolioState::<C>::Checking(n),
            evs.drop_last(),
        ) matches PortfolioState::Checking(np) ==> np > 0),
        verdicts_kept(PortfolioState::<C>::Checking(n), evs) <= 1,
        run(PortfolioState::<C>::Checking(n), evs) is Checking ==> verdicts_kept(
            PortfolioState::<C>::Checking(n),
            evs,
        ) == 0,
        forall|k: int|
            0 <= k <= evs.len() && !(run(PortfolioState::<C>::Checking(n), #[trigger] evs.take(k))
                is Checking) ==> !(run(PortfolioState::<C>::Checking(n), evs) is Checking),
    decreases evs.len(),
{
    let s0 = PortfolioState::<C>::Checking(n);
    if evs.len() > 0 {
        let d = evs.drop_last();
        law_portfolio_run(n, d);
        assert forall|k: int|
            0 <= k <= evs.len() && !(run(s0, #[trigger] evs.take(k)) is Checking) implies !(run(
            s0,
            evs,
        ) is Checking) by {
            if k < evs.len() {
                assert(evs.take(k) == d.take(k));
            } else {
                assert(evs.take(k) == evs);
            }
        }
    } else {
        assert forall|k: int|
            0 <= k <= evs.len() && !(run(s0, #[trigger] evs.take(k)) is Checking) implies !(run(
            s0,
            evs,
        ) is Checking) by {
            assert(evs.take(k) == evs);
        }
    }
}

/// The verdict of an engine's exit code: 20 proves the property, 10
/// refutes it, anything else is no verdict.
pub open spec fn verdict_of(code: Option<i64>) -> Option<bool> {
    match code {
        Some(x) => if x == 20 {
            Some(true)
        } else if x == 10 {
            Some(false)
        } else {
            None
        },
        None => None,
    }
}

/// The verdict of an engine's exit code.
pub fn engine_verdict(code: Option<i64>) -> (r: Option<bool>)
    ensures
        r == verdict_of(code),
{
    match code {
        Some(x) => if x == 10 || x == 20 {
            Some(x == 20)
        } else {
            None
        },
        None => None,
    }
}

/// The exit code of the program for a verdict is 20 when proved, 10 when
/// refuted, 0 when unknown.
pub fn exit_code(res: Option<bool>) -> (r: i32)
    ensures
        r == match res {
            Some(true) => 20int,
            Some(false) => 10int,
            None => 0int,
        },
{
    match res {
        Some(true) => 20,
        Some(false) => 10,
        None => 0,
    }
}

/// The configurations of the engines of the portfolio, as arguments
/// separated by spaces.
pub open spec fn portfolio_configs() -> Seq<Seq<char>> {
    seq![
        "-e ic3"@,
        "-e ic3 --ic3-ctp --rseed 5555"@,
        "-e ic3 --ic3-dynamic --rseed 55"@,
        "-e ic3 --ic3-ctg"@,
        "-e ic3 --ic3-ctg --ic3-ctg-limit 5"@,
        "-e ic3 --ic3-ctg --ic3-ctg-max 5 --ic3-ctg-limit 15"@,
        "-e ic3 --ic3-ctg --ic3-abs-cst --rseed 55"@,
        "-e ic3 --ic3-ctg --ic3-ctp"@,
        "-e ic3 --ic3-inn"@,
        "-e ic3 --ic3-ctg --ic3-inn"@,
        "-e ic3 --ic3-ctg --ic3-ctg-limit 5 --ic3-inn"@,
        "-e bmc --step 1"@,
        "-e bmc --step 10"@,
        "-e bmc --bmc-kissat --step 70"@,
        "-e bmc --bmc-kissat --step 135"@,
        "-e kind --step 1 --kind-simple-path"@,
    ]
}

/// The portfolio runs sixteen configurations, no two of them alike: every
/// engine it starts tries something the others do not.
pub proof fn law_portfolio_configs_distinct()
    ensures
        portfolio_configs().len() == 16,
        forall|i: int, j: int|
            0 <= i < j < portfolio_configs().len() ==> #[trigger] portfolio_configs()[i]
                != #[trigger] portfolio_configs()[j],
{
    reveal_strlit("-e ic3");
    reveal_strlit("-e ic3 --ic3-ctp --rseed 5555");
    reveal_strlit("-e ic3 --ic3-dynamic --rseed 55");
    reveal_strlit("-e ic3 --ic3-ctg");
    reveal_strlit("-e ic3 --ic3-ctg --ic3-ctg-limit 5");
    reveal_strlit("-e ic3 --ic3-ctg --ic3-ctg-max 5 --ic3-ctg-limit 15");
    reveal_strlit("-e ic3 --ic3-ctg --ic3-abs-cst --rseed 55");
    reveal_strlit("-e ic3 --ic3-ctg --ic3-ctp");
    reveal_strlit("-e ic3 --ic3-inn");
    reveal_strlit("-e ic3 --ic3-ctg --ic3-inn");
    reveal_strlit("-e ic3 --ic3-ctg --ic3-ctg-limit 5 --ic3-inn");
    reveal_strlit("-e bmc --step 1");
    reveal_strlit("-e bmc --step 10");
    reveal_strlit("-e bmc --bmc-kissat --step 70");
    reveal_strlit("-e bmc --bmc-kissat --step 135");
    reveal_strlit("-e kind --step 1 --kind-simple-path");
    let c = portfolio_configs();
    assert forall|i: int, j: int| 0 <= i < j < c.len() implies #[trigger] c[i] != #[trigger] c[j] by {
        if c[i].len() == c[j].len() {
            assert(exists|k: int| 0 <= k < c[i].len() && c[i][k] != c[j][k]) by {
                if i == 3 && j == 8 {
                    assert(c[i][13] != c[j][13]);
                } else if i == 7 {
                    assert(c[i][23] != c[j][23]);
                } else {
                    assert(c[i][3] != c[j][3]);
                }
            }
        }
    }
}

fn configs() -> (r: Vec<&'static str>)
    ensures
        r@.map_values(|s: &str| s@) == portfolio_configs(),
{
    let mut v: Vec<&'static str> = Vec::new();
    v.push("-e ic3");
    v.push("-e ic3 --ic3-ctp --rseed 5555");
    v.push("-e ic3 --ic3-dynamic --rseed 55");
    v.push("-e ic3 --ic3-ctg");
    v.push("-e ic3 --ic3-ctg --ic3-ctg-limit 5");
    v.push("-e ic3 --ic3-ctg --ic3-ctg-max 5 --ic3-ctg-limit 15");
    v.push("-e ic3 --ic3-ctg --ic3-abs-cst --rseed 55");
    v.push("-e ic3 --ic3-ctg --ic3-ctp");
    v.push("-e ic3 --ic3-inn");
    v.push("-e ic3 --ic3-ctg --ic3-inn");
    v.push("-e ic3 --ic3-ctg --ic3-ctg-limit 5 --ic3-inn");
    v.push("-e bmc --step 1");
    v.push("-e bmc --step 10");
    v.push("-e bmc --bmc-kissat --step 70");
    v.push("-e bmc --bmc-kissat --step 135");
    v.push("-e kind --step 1 --kind-simple-path");
    assert(v@.map_values(|s: &str| s@) =~= portfolio_configs());
    v
}

/// The arguments of an engine: the model, the words of its configuration,
/// and the preprocessing flags that are set.
pub open spec fn engine_args_of(o: Options, config: Seq<char>) -> Seq<Seq<char>> {
    seq![o.model@] + split_spaces(config) + (if o.preprocess.sec {
        seq!["--sec"@]
    } else {
        Seq::empty()
    }) + (if o.preprocess.no_abc {
        seq!["--no-abc"@]
    } else {
        Seq::empty()
    })
}

/// The arguments of each engine of the portfolio, in order.
pub fn engine_args(option: &Options) -> (r: Vec<Vec<String>>)
    ensures
        r@.len() == portfolio_configs().len(),
        forall|k: int|
            0 <= k < r@.len() ==> string_views((#[trigger] r@[k])@) == engine_args_of(
                *option,
                portfolio_configs()[k],
            ),
        forall|i: int, j: int|
            0 <= i < j < r@.len() ==> string_views((#[trigger] r@[i])@) != string_views(
                (#[trigger] r@[j])@,
            ),
{
    proof {
        law_engine_args_distinct(*option);
    }
    let cs = configs();
    let mut engines: Vec<Vec<String>> = Vec::new();
    let mut k: usize = 0;
    while k < cs.len()
        invariant
            cs@.map_values(|s: &str| s@) == portfolio_configs(),
            0 <= k <= cs@.len(),
            engines@.len() == k,
            forall|q: int|
                0 <= q < k ==> string_views((#[trigger] engines@[q])@) == engine_args_of(
                    *option,
                    portfolio_configs()[q],
                ),
        decreases cs@.len() - k,
    {
        let mut args: Vec<String> = Vec::new();
        args.push(option.model.clone());
        let words = split_spaces_exec(cs[k]);
        let mut w: usize = 0;
        while w < words.len()
            invariant
                0 <= w <= words@.len(),
                string_views(args@) == seq![option.model@] + string_views(words@).take(w as int),
            decreases words@.len() - w,
        {
            let ghost prev = string_views(args@);
            args.push(words[w].clone());
            proof {
                assert(string_views(args@) =~= prev.push(words@[w as int]@));
                assert(string_views(words@).take(w + 1) =~= string_views(words@).take(w as int).push(
                    words@[w as int]@,
                ));
                assert(string_views(args@) =~= seq![option.model@] + string_views(words@).take(
                    w + 1,
                ));
            }
            w += 1;
        }
        proof {
            assert(string_views(words@).take(w as int) =~= string_views(words@));
            assert(cs@[k as int]@ == portfolio_configs()[k as int]);
        }
        let ghost before = string_views(args@);
        if option.preprocess.sec {
            args.push(String::from_str("--sec"));
        }
        let ghost mid = string_views(args@);
        assert(mid =~= before + (if option.preprocess.sec {
            seq!["--sec"@]
        } else {
            Seq::<Seq<char>>::empty()
        }));
        if option.preprocess.no_abc {
            args.push(String::from_str("--no-abc"));
        }
        assert(string_views(args@) =~= mid + (if option.preprocess.no_abc {
            seq!["--no-abc"@]
        } else {
            Seq::<Seq<char>>::empty()
        }));
        engines.push(args);
        k += 1;
    }
    engines
}

/// Whether each engine is to write a certificate or witness to a file.
pub fn needs_certificate(option: &Options) -> (r: bool)
    ensures
        r == (option.certificate is Some || option.certify || option.witness),
{
    option.certificate.is_some() || option.certify || option.witness
}

/// The words joined with single spaces.
pub open spec fn join_spaces(ws: Seq<Seq<char>>) -> Seq<char>
    decreases ws.len(),
{
    if ws.len() == 0 {
        Seq::empty()
    } else if ws.len() == 1 {
        ws[0]
    } else {
        join_spaces(ws.drop_last()) + seq![' '] + ws.last()
    }
}

/// The configuration an engine ran with: its arguments after the model,
/// joined with single spaces.
pub fn config_string(args: &Vec<String>) -> (r: String)
    ensures
        r@ == join_spaces(
            if args@.len() == 0 {
                Seq::empty()
            } else {
                string_views(args@).skip(1)
            },
        ),
{
    let mut res = String::new();
    if args.len() <= 1 {
        assert(args@.len() == 1 ==> string_views(args@).skip(1) =~= Seq::<Seq<char>>::empty());
        return res;
    }
    let ghost ws = string_views(args@).skip(1);
    let mut k: usize = 1;
    while k < args.len()
        invariant
            ws == string_views(args@).skip(1),
            1 <= k <= args@.len(),
            res@ == join_spaces(ws.take(k - 1)),
        decreases args@.len() - k,
    {
        proof {
            assert(ws.take(k as int).drop_last() =~= ws.take(k - 1));
            assert(ws[k - 1] == args@[k as int]@);
        }
        if k > 1 {
            push_char(&mut res, ' ');
        }
        res.append(args[k].as_str());
        proof {
            if k == 1 {
                assert(ws.take(1) =~= seq![ws[0]]);
                assert(res@ =~= join_spaces(ws.take(1)));
            } else {
                assert(res@ =~= join_spaces(ws.take(k as int)));
            }
        }
        k += 1;
    }
    proof {
        assert(ws.take(k - 1) =~= ws);
    }
    res
}

/// Joining after putting `c` before the first word is putting `c` before
/// the joined words.
pub proof fn lemma_join_prefix_first(c: Seq<char>, ws: Seq<Seq<char>>)
    requires
        ws.len() >= 1,
    ensures
        join_spaces(prefix_first(c, ws)) == c + join_spaces(ws),
    decreases ws.len(),
{
    if ws.len() == 1 {
        assert(prefix_first(c, ws) =~= seq![c + ws[0]]);
    } else {
        lemma_join_prefix_first(c, ws.drop_last());
        assert(prefix_first(c, ws).drop_last() =~= prefix_first(c, ws.drop_last()));
        assert(c + join_spaces(ws.drop_last()) + seq![' '] + ws.last() =~= c + (join_spaces(
            ws.drop_last(),
        ) + seq![' '] + ws.last()));
    }
}

/// Joining a first word and more words puts a space after the first word.
pub proof fn lemma_join_cons(w: Seq<char>, ws: Seq<Seq<char>>)
    requires
        ws.len() >= 1,
    ensures
        join_spaces(seq![w] + ws) == w + seq![' '] + join_spaces(ws),
    decreases ws.len(),
{
    assert((seq![w] + ws).last() == ws.last());
    if ws.len() == 1 {
        assert((seq![w] + ws).drop_last() =~= seq![w]);
        assert(join_spaces(seq![w]) == w);
        assert(join_spaces(ws) == ws[0]);
    } else {
        lemma_join_cons(w, ws.drop_last());
        assert((seq![w] + ws).drop_last() =~= seq![w] + ws.drop_last());
        assert(w + seq![' '] + join_spaces(ws.drop_last()) + seq![' '] + ws.last() =~= w + seq![' ']
            + (join_spaces(ws.drop_last()) + seq![' '] + ws.last()));
    }
}

/// Splitting at spaces and joining with spaces gives the text back.
pub proof fn lemma_join_split(s: Seq<char>)
    ensures
        join_spaces(split_spaces(s)) == s,
    decreases s.len(),
{
    if s.len() == 0 {
        assert(join_spaces(split_spaces(s)) =~= s);
    } else {
        lemma_join_split(s.drop_first());
        lemma_split_spaces_nonempty(s.drop_first());
        let x = split_spaces(s.drop_first());
        if s[0] == ' ' {
            lemma_join_cons(Seq::empty(), x);
            assert(Seq::<char>::empty() + seq![' '] + s.drop_first() =~= s);
        } else {
            assert(x.update(0, seq![s[0]] + x[0]) == prefix_first(seq![s[0]], x));
            lemma_join_prefix_first(seq![s[0]], x);
            assert(seq![s[0]] + s.drop_first() =~= s);
        }
    }
}

/// The configuration reported for an engine of the portfolio is the one it
/// was started with: its configuration text, then the preprocessing flags
/// that are set.
pub proof fn law_config_reported(o: Options, k: int)
    requires
        0 <= k < portfolio_configs().len(),
    ensures
        join_spaces(engine_args_of(o, portfolio_configs()[k]).skip(1)) == portfolio_configs()[k]
            + (if o.preprocess.sec {
            " --sec"@
        } else {
            Seq::empty()
        }) + (if o.preprocess.no_abc {
            " --no-abc"@
        } else {
            Seq::empty()
        }),
{
    let c = portfolio_configs()[k];
    let words = split_spaces(c);
    lemma_split_spaces_nonempty(c);
    lemma_join_split(c);
    let sec: Seq<Seq<char>> = if o.preprocess.sec {
        seq!["--sec"@]
    } else {
        Seq::empty()
    };
    let abc: Seq<Seq<char>> = if o.preprocess.no_abc {
        seq!["--no-abc"@]
    } else {
        Seq::empty()
    };
    assert(engine_args_of(o, c).skip(1) =~= words + sec + abc);
    assert(" --sec"@ =~= seq![' '] + "--sec"@) by {
        reveal_strlit(" --sec");
        reveal_strlit("--sec");
    }
    assert(" --no-abc"@ =~= seq![' '] + "--no-abc"@) by {
        reveal_strlit(" --no-abc");
        reveal_strlit("--no-abc");
    }
    if o.preprocess.sec {
        assert((words + sec).drop_last() =~= words);
        assert(join_spaces(words + sec) =~= c + " --sec"@);
    } else {
        assert(words + sec =~= words);
    }
    let ws = words + sec;
    if o.preprocess.no_abc {
        assert((ws + abc).drop_last() =~= ws);
    } else {
        assert(ws + abc =~= ws);
    }
    assert(join_spaces(words + sec + abc) =~= c + (if o.preprocess.sec {
        " --sec"@
    } else {
        Seq::<char>::empty()
    }) + (if o.preprocess.no_abc {
        " --no-abc"@
    } else {
        Seq::<char>::empty()
    }));
}

/// For any options, no two engines of the portfolio are started with the
/// same arguments.
pub proof fn law_engine_args_distinct(o: Options)
    ensures
        forall|i: int, j: int|
            0 <= i < j < portfolio_configs().len() ==> #[trigger] engine_args_of(
                o,
                portfolio_configs()[i],
            ) != #[trigger] engine_args_of(o, portfolio_configs()[j]),
{
    law_portfolio_configs_distinct();
    let c = portfolio_configs();
    assert forall|i: int, j: int| 0 <= i < j < c.len() implies #[trigger] engine_args_of(o, c[i])
        != #[trigger] engine_args_of(o, c[j]) by {
        law_config_reported(o, i);
        law_config_reported(o, j);
        let a = if o.preprocess.sec {
            " --sec"@
        } else {
            Seq::<char>::empty()
        };
        let b = if o.preprocess.no_abc {
            " --no-abc"@
        } else {
            Seq::<char>::empty()
        };
        if engine_args_of(o, c[i]) == engine_args_of(o, c[j]) {
            assert(c[i] + a + b == c[j] + a + b);
            assert(c[i] =~= (c[i] + a + b).take(c[i].len() as int));
            assert(c[j] =~= (c[j] + a + b).take(c[j].len() as int));
        }
    }
}

/// An engine's exit code that gives a verdict is the exit code of the run.
pub proof fn law_exit_code_passes(code: i64)
    requires
        code == 10 || code == 20,
    ensures
        (match verdict_of(Some(code)) {
            Some(true) => 20int,
            Some(false) => 10int,
            None => 0int,
        }) == code,
{
}

/// The process identifiers joined with commas.
pub open spec fn join_pids(pids: Seq<i32>) -> Seq<char>
    decreases pids.len(),
{
    if pids.len() == 0 {
        Seq::empty()
    } else if pids.len() == 1 {
        signed_decimal(pids[0] as int)
    } else {
        join_pids(pids.drop_last()) + seq![','] + signed_decimal(pids.last() as int)
    }
}

/// The arguments that kill the engines and their children: those of
/// `pkill` (a signal, and the engines as parents) and those of `kill`
/// (a signal, and each engine).
pub fn kill_args(pids: &Vec<i32>) -> (r: (Vec<String>, Vec<String>))
    ensures
        string_views(r.0@) == seq!["-9"@, "--parent"@, join_pids(pids@)],
        string_views(r.1@) == seq!["-9"@] + pids@.map_values(|p: i32| signed_decimal(p as int)),
{
    let mut joined = String::new();
    let mut kill: Vec<String> = Vec::new();
    kill.push(String::from_str("-9"));
    let mut k: usize = 0;
    while k < pids.len()
        invariant
            0 <= k <= pids@.len(),
            joined@ == join_pids(pids@.take(k as int)),
            string_views(kill@) == seq!["-9"@] + pids@.take(k as int).map_values(
                |p: i32| signed_decimal(p as int),
            ),
        decreases pids@.len() - k,
    {
        proof {
            assert(pids@.take(k + 1).drop_last() =~= pids@.take(k as int));
        }
        if k > 0 {
            push_char(&mut joined, ',');
        }
        push_signed_decimal(&mut joined, pids[k]);
        let mut one = String::new();
        push_signed_decimal(&mut one, pids[k]);
        let ghost prev = string_views(kill@);
        kill.push(one);
        proof {
            assert(string_views(kill@) =~= prev.push(signed_decimal(pids@[k as int] as int)));
            assert(pids@.take(k + 1).map_values(|p: i32| signed_decimal(p as int)) =~= pids@.take(
                k as int,
            ).map_values(|p: i32| signed_decimal(p as int)).push(signed_decimal(pids@[k as int] as int)));
            if k == 0 {
                assert(joined@ =~= join_pids(pids@.take(1)));
            } else {
                assert(joined@ =~= join_pids(pids@.take(k + 1)));
            }
            assert(string_views(kill@) =~= seq!["-9"@] + pids@.take(k + 1).map_values(
                |p: i32| signed_decimal(p as int),
            ));
        }
        k += 1;
    }
    proof {
        assert(pids@.take(k as int) =~= pids@);
    }
    let mut pkill: Vec<String> = Vec::new();
    pkill.push(String::from_str("-9"));
    pkill.push(String::from_str("--parent"));
    pkill.push(joined);
    proof {
        assert(string_views(pkill@) =~= seq!["-9"@, "--parent"@, join_pids(pids@)]);
    }
    (pkill, kill)
}

/// What the options ask of a certificate, by the options alone: nothing
/// exactly when no certificate path and no check are asked for and, after
/// a refutation, no witness either; the certificate is checked exactly when
/// `--certify` is given; after a refutation the witness is read, printed
/// when asked for, and written to the certificate path if there is one;
/// after a proof the certificate is copied there.
pub proof fn law_certificate_plan(option: Options, res: bool)
    ensures
        certificate_plan_of(option, res) is None <==> option.certificate is None && !option.certify
            && (res || !option.witness),
        certificate_plan_of(option, res) matches Some(t) ==> {
            &&& t.4 == option.certify
            &&& t.1 == !res
            &&& t.2 == (!res && option.witness)
            &&& (t.0 is Some <==> res && option.certificate is Some)
            &&& (t.3 is Some <==> !res && option.certificate is Some)
        },
        option.certify ==> (certificate_plan_of(option, res) matches Some(t) && t.4),
{
}

/// What to do with an engine's certificate after a verdict.
pub struct CertificatePlan {
    /// Copy the certificate file there.
    pub copy_to: Option<String>,
    /// Read the witness from the certificate file.
    pub read_witness: bool,
    /// Print the witness.
    pub print_witness: bool,
    /// Write the witness there.
    pub write_witness_to: Option<String>,
    /// Check the certificate.
    pub check: bool,
}

/// What the options ask of a certificate after the verdict `res`: nothing
/// (`None`) when no certificate, no check, and (after a refutation) no
/// witness is asked for.
pub open spec fn certificate_plan_of(option: Options, res: bool) -> Option<(
    Option<Seq<char>>,
    bool,
    bool,
    Option<Seq<char>>,
    bool,
)> {
    let path = match option.certificate {
        Some(p) => Some(p@),
        None => None,
    };
    if res {
        if option.certificate is None && !option.certify {
            None
        } else {
            Some((path, false, false, None, option.certify))
        }
    } else {
        if option.certificate is None && !option.certify && !option.witness {
            None
        } else {
            Some((None, true, option.witness, path, option.certify))
        }
    }
}

/// The parts of a plan, as a tuple of views.
pub open spec fn plan_view(p: CertificatePlan) -> (
    Option<Seq<char>>,
    bool,
    bool,
    Option<Seq<char>>,
    bool,
) {
    (
        match p.copy_to {
            Some(s) => Some(s@),
            None => None,
        },
        p.read_witness,
        p.print_witness,
        match p.write_witness_to {
            Some(s) => Some(s@),
            None => None,
        },
        p.check,
    )
}

fn clone_path(p: &Option<String>) -> (r: Option<String>)
    ensures
        match (*p, r) {
            (Some(a), Some(b)) => a@ == b@,
            (None, None) => true,
            _ => false,
        },
{
    match p {
        Some(s) => Some(s.clone()),
        None => None,
    }
}

/// What to do with the certificate after the verdict `res`.
pub fn certificate_plan(option: &Options, res: bool) -> (r: Option<CertificatePlan>)
    ensures
        match r {
            Some(p) => certificate_plan_of(*option, res) == Some(plan_view(p)),
            None => certificate_plan_of(*option, res) is None,
        },
        r is None <==> option.certificate is None && !option.certify && (res || !option.witness),
        r matches Some(p) ==> {
            &&& p.check == option.certify
            &&& p.read_witness == !res
            &&& p.print_witness == (!res && option.witness)
            &&& (p.copy_to is Some <==> res && option.certificate is Some)
            &&& (p.write_witness_to is Some <==> !res && option.certificate is Some)
        },
{
    proof {
        law_certificate_plan(*option, res);
    }
    if res {
        if option.certificate.is_none() && !option.certify {
            return None;
        }
        Some(
            CertificatePlan {
                copy_to: clone_path(&option.certificate),
                read_witness: false,
                print_witness: false,
                write_witness_to: None,
                check: option.certify,
            },
        )
    } else {
        if option.certificate.is_none() && !option.certify && !option.witness {
            return None;
        }
        Some(
            CertificatePlan {
                copy_to: None,
                read_witness: true,
                print_witness: option.witness,
                write_witness_to: clone_path(&option.certificate),
                check: option.certify,
            },
        )
    }
}

/// What follows a portfolio run that ended with `res`: the verdict is
/// kept, and after a proof or a refutation the certificate is handled as
/// `certificate_plan` says.
pub fn portfolio_main(options: &Options, res: Option<bool>) -> (r: (Option<bool>, Option<CertificatePlan>))
    ensures
        r.0 == res,
        match res {
            Some(b) => match r.1 {
                Some(p) => certificate_plan_of(*options, b) == Some(plan_view(p)),
                None => certificate_plan_of(*options, b) is None,
            },
            None => r.1 is None,
        },
{
    match res {
        Some(b) => (res, certificate_plan(options, b)),
        None => (res, None),
    }
}

} // verus!
