use proton_call::error::Kind;
use proton_call::{Proton, Runtime, RuntimeOption, RunTimeVersion, Version};

fn bundle(options: Vec<RuntimeOption>, runtime: Option<RunTimeVersion>) -> Proton {
    Proton::new(
        Version::Mainline(6, 3),
        "/common/Proton 6.3".to_string(),
        "/bin/true".to_string(),
        Vec::new(),
        options,
        "/compat".to_string(),
        "/steam".to_string(),
        runtime,
        "/common".to_string(),
    )
}

#[test]
fn option_tokens_parse() {
    assert_eq!(RuntimeOption::parse("log").unwrap(), RuntimeOption::log);
    assert_eq!(RuntimeOption::parse("wined3d").unwrap(), RuntimeOption::wined3d);
    assert_eq!(RuntimeOption::parse("nod3d11").unwrap(), RuntimeOption::nod3d11);
    assert_eq!(RuntimeOption::parse("nod3d10").unwrap(), RuntimeOption::nod3d10);
    assert_eq!(RuntimeOption::parse("noesync").unwrap(), RuntimeOption::noesync);
    assert_eq!(RuntimeOption::parse("nofsync").unwrap(), RuntimeOption::nofsync);
}

#[test]
fn nvapi_alias_names_the_same_variable() {
    let a = RuntimeOption::parse("nvapi").unwrap();
    let b = RuntimeOption::parse("enablenvapi").unwrap();
    assert_eq!(a, b);
    assert_eq!(a, RuntimeOption::enablenvapi);
    assert_eq!(a.env_var_name(), "PROTON_ENABLE_NVAPI");
}

#[test]
fn unknown_option_token_is_rejected() {
    let e = RuntimeOption::parse("turbo").unwrap_err();
    assert_eq!(e.kind, Kind::ParseRuntimeOpt);
    assert_eq!(e.message, "turbo");
}

#[test]
fn env_var_names_are_fixed() {
    assert_eq!(RuntimeOption::log.env_var_name(), "PROTON_LOG");
    assert_eq!(RuntimeOption::wined3d.env_var_name(), "PROTON_USE_WINED3D");
    assert_eq!(RuntimeOption::nod3d11.env_var_name(), "PROTON_NO_D3D11");
    assert_eq!(RuntimeOption::nod3d10.env_var_name(), "PROTON_NO_D3D10");
    assert_eq!(RuntimeOption::noesync.env_var_name(), "PROTON_NO_ESYNC");
    assert_eq!(RuntimeOption::nofsync.env_var_name(), "PROTON_NO_FSYNC");
}

#[test]
fn new_appends_the_executable_name() {
    let p = bundle(Vec::new(), None);
    assert_eq!(p.path, "/common/Proton 6.3/proton");
    assert_eq!(p.version, Version::Mainline(6, 3));
}

#[test]
fn direct_invocation_composes_run_program_and_two_path_variables() {
    let p = bundle(Vec::new(), None);
    let inv = p.invocation();
    assert_eq!(inv.program, "/common/Proton 6.3/proton");
    assert_eq!(inv.args, vec!["run".to_string(), "/bin/true".to_string()]);
    assert_eq!(
        inv.envs,
        vec![
            ("STEAM_COMPAT_DATA_PATH".to_string(), "/compat".to_string()),
            ("STEAM_COMPAT_CLIENT_INSTALL_PATH".to_string(), "/steam".to_string()),
        ]
    );
}

#[test]
fn requested_toggles_become_env_pairs() {
    let p = bundle(vec![RuntimeOption::log, RuntimeOption::enablenvapi], None);
    let opts = p.gen_options();
    assert_eq!(
        opts,
        vec![
            ("PROTON_LOG".to_string(), "1".to_string()),
            ("PROTON_ENABLE_NVAPI".to_string(), "1".to_string()),
        ]
    );
    let inv = p.invocation();
    assert_eq!(inv.envs.len(), 4);
    assert_eq!(inv.envs[2], ("PROTON_LOG".to_string(), "1".to_string()));
    assert_eq!(inv.envs[3], ("PROTON_ENABLE_NVAPI".to_string(), "1".to_string()));
}

#[test]
fn program_arguments_are_forwarded_in_order() {
    let mut p = bundle(Vec::new(), None);
    p.args = vec!["--width".to_string(), "640".to_string()];
    let inv = p.invocation();
    assert_eq!(
        inv.args,
        vec![
            "run".to_string(),
            "/bin/true".to_string(),
            "--width".to_string(),
            "640".to_string(),
        ]
    );
}

#[test]
fn compat_dir_is_per_version() {
    let mut p = bundle(Vec::new(), None);
    assert_eq!(p.compat_dir(), "/compat/Proton 6.3");
    p.promote_compat();
    assert_eq!(p.compat, "/compat/Proton 6.3");
    let inv = p.invocation();
    assert_eq!(
        inv.envs[0],
        ("STEAM_COMPAT_DATA_PATH".to_string(), "/compat/Proton 6.3".to_string())
    );
}

#[test]
fn checks_report_what_is_missing() {
    let mut p = bundle(Vec::new(), None);
    let e = p.check_proton().unwrap_err();
    assert_eq!(e.kind, Kind::ProtonMissing);
    assert_eq!(e.message, "6.3");
    assert!(p.check_program().is_ok());
    p.program = "/nonexistent-program".to_string();
    let e = p.check_program().unwrap_err();
    assert_eq!(e.kind, Kind::ProgramMissing);
    assert_eq!(e.message, "/nonexistent-program");
}

#[test]
fn wrapped_invocation_puts_the_runtime_outermost() {
    let p = bundle(Vec::new(), Some(RunTimeVersion::Soldier));
    let rt = Runtime {
        version: RunTimeVersion::Soldier,
        path: "/common/SteamLinuxRuntime_soldier/run".to_string(),
        proton: p,
    };
    let inv = rt.invocation();
    assert_eq!(inv.program, "/common/SteamLinuxRuntime_soldier/run");
    assert_eq!(
        inv.args,
        vec![
            "/common/Proton 6.3/proton".to_string(),
            "runinprefix".to_string(),
            "/bin/true".to_string(),
        ]
    );
    assert_eq!(inv.envs.len(), 2);
}
