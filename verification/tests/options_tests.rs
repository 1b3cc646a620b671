use ric3::options::{BMCOptions, Engine, IC3Options, KindOptions, Options, PreprocessOptions};

fn defaults(engine: Engine) -> Options {
    Options {
        engine,
        model: String::from("m.aig"),
        step: 1,
        rseed: 0,
        bmc: BMCOptions { time_limit: None, bmc_kissat: false, bmc_max_k: usize::MAX },
        ic3: IC3Options {
            dynamic: false,
            ctg: false,
            ctg_max: 3,
            ctg_limit: 1,
            ctp: false,
            inn: false,
            abs_cst: false,
            no_pred_prop: false,
        },
        kind: KindOptions { no_bmc: false, kind_kissat: false, simple_path: false },
        preprocess: PreprocessOptions { sec: false, no_abc: false },
        certificate: None,
        certify: false,
        witness: false,
        timeout: None,
        interrupt_statistic: false,
    }
}

#[test]
fn default_options_text() {
    assert_eq!(defaults(Engine::IC3).to_string(), "-e ic3");
    assert_eq!(defaults(Engine::BMC).to_string(), "-e bmc");
    assert_eq!(defaults(Engine::Kind).to_string(), "-e kind");
    assert_eq!(defaults(Engine::Portfolio).to_string(), "-e portfolio");
}

#[test]
fn ic3_options_text() {
    let mut o = defaults(Engine::IC3);
    o.ic3.ctg = true;
    o.ic3.ctg_max = 5;
    o.ic3.ctg_limit = 15;
    o.ic3.dynamic = true;
    o.ic3.ctp = true;
    o.ic3.inn = true;
    o.ic3.abs_cst = true;
    o.ic3.no_pred_prop = true;
    o.step = 10;
    o.rseed = 55;
    o.preprocess.sec = true;
    o.preprocess.no_abc = true;
    assert_eq!(
        o.to_string(),
        "-e ic3 --ic3-dynamic --ic3-ctg --ic3-ctg-max 5 --ic3-ctg-limit 15 --ic3-ctp --ic3-inn --ic3-abs-cst --ic3-no-pred-prop --step 10 --rseed 55 --sec --no-abc"
    );
}

#[test]
fn ctg_limits_only_with_ctg() {
    let mut o = defaults(Engine::IC3);
    o.ic3.ctg_max = 5;
    o.ic3.ctg_limit = 15;
    assert_eq!(o.to_string(), "-e ic3");
    o.ic3.ctg = true;
    o.ic3.ctg_max = 3;
    assert_eq!(o.to_string(), "-e ic3 --ic3-ctg --ic3-ctg-limit 15");
}

#[test]
fn bmc_and_kind_options_text() {
    let mut o = defaults(Engine::BMC);
    o.bmc.time_limit = Some(100);
    o.bmc.bmc_kissat = true;
    o.bmc.bmc_max_k = 70;
    o.ic3.ctp = true;
    assert_eq!(o.to_string(), "-e bmc --bmc-time-limit 100 --bmc-kissat --bmc-max-k 70");
    let mut k = defaults(Engine::Kind);
    k.kind.no_bmc = true;
    k.kind.kind_kissat = true;
    k.kind.simple_path = true;
    assert_eq!(k.to_string(), "-e kind --kind-no-bmc --kind-kissat --kind-simple-path");
}

#[test]
fn part_fmt_appends() {
    let mut s = String::from(">");
    Engine::BMC.fmt(&mut s);
    PreprocessOptions { sec: true, no_abc: false }.fmt(&mut s);
    KindOptions { no_bmc: false, kind_kissat: false, simple_path: true }.fmt(&mut s);
    assert_eq!(s, ">-e bmc --sec --kind-simple-path");
}
