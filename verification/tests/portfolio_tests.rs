use ric3::options::{BMCOptions, Engine, IC3Options, KindOptions, Options, PreprocessOptions};
use ric3::portfolio::{
    certificate_plan, config_string, engine_args, engine_verdict, exit_code, kill_args,
    needs_certificate, portfolio_main, PortfolioState, Result,
};

fn options() -> Options {
    Options {
        engine: Engine::Portfolio,
        model: String::from("/tmp/m.aig"),
        step: 1,
        rseed: 0,
        bmc: BMCOptions { time_limit: None, bmc_kissat: false, bmc_max_k: usize::MAX },
        ic3: IC3Options {
            dynamic: false,
            ctg: false,
            ctg_max: 3,
            ctg_limit: 1,
            ctp: false,
            inn: false,
            abs_cst: false,
            no_pred_prop: false,
        },
        kind: KindOptions { no_bmc: false, kind_kissat: false, simple_path: false },
        preprocess: PreprocessOptions { sec: false, no_abc: false },
        certificate: None,
        certify: false,
        witness: false,
        timeout: None,
        interrupt_statistic: false,
    }
}

fn res(proved: bool) -> Result<u8> {
    Result { proved, output: vec![1, 2], config: String::from("-e ic3"), certificate: Some(9) }
}

#[test]
fn engine_args_of_portfolio() {
    let mut o = options();
    let args = engine_args(&o);
    assert_eq!(args.len(), 16);
    assert_eq!(args[0], vec!["/tmp/m.aig", "-e", "ic3"]);
    assert_eq!(args[5], vec!["/tmp/m.aig", "-e", "ic3", "--ic3-ctg", "--ic3-ctg-max", "5", "--ic3-ctg-limit", "15"]);
    assert_eq!(args[15], vec!["/tmp/m.aig", "-e", "kind", "--step", "1", "--kind-simple-path"]);
    o.preprocess.sec = true;
    o.preprocess.no_abc = true;
    let args = engine_args(&o);
    assert_eq!(args[13], vec!["/tmp/m.aig", "-e", "bmc", "--bmc-kissat", "--step", "70", "--sec", "--no-abc"]);
}

#[test]
fn config_string_skips_model() {
    let mut o = options();
    o.preprocess.no_abc = true;
    let args = engine_args(&o);
    assert_eq!(config_string(&args[1]), "-e ic3 --ic3-ctp --rseed 5555 --no-abc");
    assert_eq!(config_string(&vec![String::from("m")]), "");
    assert_eq!(config_string(&vec![]), "");
}

#[test]
fn verdicts_and_exit_codes() {
    assert_eq!(engine_verdict(Some(20)), Some(true));
    assert_eq!(engine_verdict(Some(10)), Some(false));
    assert_eq!(engine_verdict(Some(0)), None);
    assert_eq!(engine_verdict(None), None);
    assert_eq!(exit_code(Some(true)), 20);
    assert_eq!(exit_code(Some(false)), 10);
    assert_eq!(exit_code(None), 0);
    assert_eq!(exit_code(engine_verdict(Some(20))), 20);
    assert_eq!(exit_code(engine_verdict(Some(10))), 10);
}

#[test]
fn kill_args_of_pids() {
    let (pkill, kill) = kill_args(&vec![12, 345, -7]);
    assert_eq!(pkill, vec!["-9", "--parent", "12,345,-7"]);
    assert_eq!(kill, vec!["-9", "12", "345", "-7"]);
    let (pkill, kill) = kill_args(&vec![]);
    assert_eq!(pkill, vec!["-9", "--parent", ""]);
    assert_eq!(kill, vec!["-9"]);
}

#[test]
fn first_verdict_wins() {
    let mut s: PortfolioState<u8> = PortfolioState::new(3);
    assert!(s.is_checking());
    assert!(!s.engine_exited());
    assert!(s.finish(res(true)));
    assert!(!s.is_checking());
    assert!(!s.finish(res(false)));
    assert!(!s.engine_exited());
    assert!(!s.request_terminate());
    let r = s.conclude().unwrap();
    assert!(r.proved);
    assert_eq!(r.output, vec![1, 2]);
    assert_eq!(r.certificate, Some(9));
}

#[test]
fn all_engines_exit_without_verdict() {
    let mut s: PortfolioState<u8> = PortfolioState::new(2);
    assert!(!s.engine_exited());
    assert!(s.engine_exited());
    assert!(s.conclude().is_none());
    assert!(s.is_checking());
}

#[test]
fn terminate_stops_checking() {
    let mut s: PortfolioState<u8> = PortfolioState::new(2);
    assert!(s.request_terminate());
    assert!(!s.is_checking());
    assert!(!s.request_terminate());
    assert!(!s.finish(res(false)));
    assert!(matches!(s, PortfolioState::Terminate));
}

#[test]
fn result_is_taken_once() {
    let mut s: PortfolioState<u8> = PortfolioState::Finished(Some(res(false)));
    let r = s.result();
    assert!(!r.proved);
    assert!(matches!(s, PortfolioState::Finished(None)));
}

#[test]
fn certificate_plans() {
    let mut o = options();
    assert!(!needs_certificate(&o));
    assert!(certificate_plan(&o, true).is_none());
    assert!(certificate_plan(&o, false).is_none());
    o.witness = true;
    assert!(needs_certificate(&o));
    assert!(certificate_plan(&o, true).is_none());
    let p = certificate_plan(&o, false).unwrap();
    assert!(p.read_witness && p.print_witness && p.write_witness_to.is_none() && !p.check);
    o.witness = false;
    o.certificate = Some(String::from("out.txt"));
    let p = certificate_plan(&o, true).unwrap();
    assert_eq!(p.copy_to, Some(String::from("out.txt")));
    assert!(!p.read_witness && !p.check);
    let p = certificate_plan(&o, false).unwrap();
    assert_eq!(p.write_witness_to, Some(String::from("out.txt")));
    assert!(p.read_witness && !p.print_witness && p.copy_to.is_none());
    o.certify = true;
    assert!(certificate_plan(&o, true).unwrap().check);
}

#[test]
fn portfolio_main_keeps_verdict() {
    let mut o = options();
    o.certify = true;
    let (r, plan) = portfolio_main(&o, Some(true));
    assert_eq!(r, Some(true));
    assert!(plan.unwrap().check);
    let (r, plan) = portfolio_main(&o, None);
    assert_eq!(r, None);
    assert!(plan.is_none());
}

#[test]
fn running_count_is_engines_less_reports() {
    let mut s: PortfolioState<u8> = PortfolioState::new(3);
    assert!(!s.engine_exited());
    assert!(!s.engine_exited());
    assert!(matches!(s, PortfolioState::Checking(1)));
    assert!(s.finish(res(false)));
    assert!(!s.engine_exited());
    assert!(matches!(s, PortfolioState::Finished(Some(_))));
    assert!(!s.conclude().unwrap().proved);
    assert!(matches!(s, PortfolioState::Finished(None)));
}
