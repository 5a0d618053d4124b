use proton_call::error::Kind;
use proton_call::{Proton, Runtime, RunTimeVersion, Version};

#[test]
fn parse_known_tokens() {
    assert_eq!(RunTimeVersion::parse("default"), RunTimeVersion::Default);
    assert_eq!(RunTimeVersion::parse("soldier"), RunTimeVersion::Soldier);
    assert_eq!(RunTimeVersion::parse("sniper"), RunTimeVersion::Sniper);
    assert_eq!(RunTimeVersion::parse("battleeye"), RunTimeVersion::BattleEye);
    assert_eq!(RunTimeVersion::parse("eac"), RunTimeVersion::EasyAntiCheat);
    assert_eq!(RunTimeVersion::parse("easyanticheat"), RunTimeVersion::EasyAntiCheat);
}

#[test]
fn unknown_token_falls_back_to_default() {
    assert_eq!(RunTimeVersion::parse("unknown-token"), RunTimeVersion::Default);
    assert_eq!(RunTimeVersion::parse(""), RunTimeVersion::Default);
    assert_eq!(RunTimeVersion::parse("Soldier"), RunTimeVersion::Default);
}

#[test]
fn install_names_are_fixed() {
    assert_eq!(RunTimeVersion::Default.install_name(), "SteamLinuxRuntime");
    assert_eq!(RunTimeVersion::Sniper.install_name(), "SteamLinuxRuntime_sniper");
    assert_eq!(RunTimeVersion::Soldier.install_name(), "SteamLinuxRuntime_soldier");
    assert_eq!(RunTimeVersion::BattleEye.install_name(), "Proton BattlEye Runtime");
    assert_eq!(
        RunTimeVersion::EasyAntiCheat.install_name(),
        "Proton EasyAntiCheat Runtime"
    );
}

#[test]
fn find_reports_a_missing_runtime() {
    let e = Runtime::find("/nonexistent-root", RunTimeVersion::Soldier).unwrap_err();
    assert_eq!(e.kind, Kind::RuntimeMissing);
    assert_eq!(e.message, "SteamLinuxRuntime_soldier");
}

#[test]
fn from_proton_reports_a_missing_runtime() {
    let p = Proton::new(
        Version::Mainline(6, 3),
        "/common/Proton 6.3".to_string(),
        "/bin/true".to_string(),
        Vec::new(),
        Vec::new(),
        "/compat".to_string(),
        "/steam".to_string(),
        Some(RunTimeVersion::Sniper),
        "/nonexistent-root".to_string(),
    );
    let e = Runtime::from_proton(RunTimeVersion::Sniper, p).unwrap_err();
    assert_eq!(e.kind, Kind::RuntimeMissing);
    assert_eq!(e.message, "SteamLinuxRuntime_sniper");
}
