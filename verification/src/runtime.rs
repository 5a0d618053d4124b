//! Named runtime containers and the runtime-wrapped launch: a container is
//! located under the common root and spawned as the outer process, with the
//! compatibility tool as its first argument.

use crate::error::{Error, Kind};
use crate::text::chars_eq_str;
use crate::text::str_to_chars;
use crate::{base_env_spec, wrapped_args_spec, Invocation, Proton};
use vstd::prelude::*;

verus! {

/// A named system-runtime container, each bound 1:1 to the fixed name of
/// its installation directory.
#[derive(Debug, Clone, Copy, PartialEq, Eq, Structural, PartialOrd, Ord)]
pub enum RunTimeVersion {
    /// The default runtime.
    Default,
    /// The sniper runtime.
    Sniper,
    /// The soldier runtime.
    Soldier,
    /// The BattlEye anti-cheat runtime.
    BattleEye,
    /// The EasyAntiCheat runtime.
    EasyAntiCheat,
}

/// The fixed installation-directory name of each container.
pub open spec fn install_name_spec(v: RunTimeVersion) -> Seq<char> {
    match v {
        RunTimeVersion::Default => "SteamLinuxRuntime"@,
        RunTimeVersion::Sniper => "SteamLinuxRuntime_sniper"@,
        RunTimeVersion::Soldier => "SteamLinuxRuntime_soldier"@,
        RunTimeVersion::BattleEye => "Proton BattlEye Runtime"@,
        RunTimeVersion::EasyAntiCheat => "Proton EasyAntiCheat Runtime"@,
    }
}

/// What parsing a runtime token yields. Parsing is infallible by design:
/// any unrecognised token resolves to `Default`.
pub open spec fn runtime_version_parse_spec(s: Seq<char>) -> RunTimeVersion {
    if s == "default"@ {
        RunTimeVersion::Default
    } else if s == "soldier"@ {
        RunTimeVersion::Soldier
    } else if s == "sniper"@ {
        RunTimeVersion::Sniper
    } else if s == "battleeye"@ {
        RunTimeVersion::BattleEye
    } else if s == "eac"@ || s == "easyanticheat"@ {
        RunTimeVersion::EasyAntiCheat
    } else {
        RunTimeVersion::Default
    }
}

/// Where a container's launcher executable is expected:
/// `<common>/<install name>/run`.
pub open spec fn runtime_path_spec(common: Seq<char>, v: RunTimeVersion) -> Seq<char> {
    common + "/"@ + install_name_spec(v) + "/run"@
}

impl RunTimeVersion {
    /// The name of the directory this container is installed under.
    pub fn install_name(&self) -> (r: String)
        ensures
            r@ == install_name_spec(*self),
    {
        match self {
            RunTimeVersion::Default => "SteamLinuxRuntime".to_owned(),
            RunTimeVersion::Sniper => "SteamLinuxRuntime_sniper".to_owned(),
            RunTimeVersion::Soldier => "SteamLinuxRuntime_soldier".to_owned(),
            RunTimeVersion::BattleEye => "Proton BattlEye Runtime".to_owned(),
            RunTimeVersion::EasyAntiCheat => "Proton EasyAntiCheat Runtime".to_owned(),
        }
    }

    /// Parses a runtime token, exactly as [`runtime_version_parse_spec`]
    /// describes; unrecognised tokens resolve to `Default` rather than
    /// failing.
    pub fn parse(s: &str) -> (r: RunTimeVersion)
        ensures
            r == runtime_version_parse_spec(s@),
    {
        let v = str_to_chars(s);
        if chars_eq_str(&v, "default") {
            RunTimeVersion::Default
        } else if chars_eq_str(&v, "soldier") {
            RunTimeVersion::Soldier
        } else if chars_eq_str(&v, "sniper") {
            RunTimeVersion::Sniper
        } else if chars_eq_str(&v, "battleeye") {
            RunTimeVersion::BattleEye
        } else if chars_eq_str(&v, "eac") || chars_eq_str(&v, "easyanticheat") {
            RunTimeVersion::EasyAntiCheat
        } else {
            RunTimeVersion::Default
        }
    }
}

/// A launch that goes through a runtime container: the located container
/// plus the launch bundle it wraps.
#[derive(Debug)]
pub struct Runtime {
    /// Which container this is.
    pub version: RunTimeVersion,
    /// The path of the container's launcher executable.
    pub path: String,
    /// The launch the container wraps.
    pub proton: Proton,
}

impl Runtime {
    /// Locates the container and wraps the launch in it. When the
    /// container's launcher is not on disk, the error is `RuntimeMissing`
    /// and names the container; whether it is depends on the disk alone.
    pub fn from_proton(version: RunTimeVersion, proton: Proton) -> (r: Result<Runtime, Error>)
        ensures
            match r {
                Ok(rt) => {
                    &&& rt.version == version
                    &&& rt.path@ == runtime_path_spec(proton.common@, version)
                    &&& rt.proton == proton
                },
                Err(e) => e.kind == Kind::RuntimeMissing && e.message@ == install_name_spec(
                    version,
                ),
            },
    {
        match Self::find(proton.common.as_str(), version) {
            Ok(path) => Ok(Runtime { version, path, proton }),
            Err(e) => Err(e),
        }
    }

    /// Looks for the container's launcher executable under the common
    /// root. A found path is exactly `<common>/<install name>/run`; a
    /// missing one is reported as `RuntimeMissing`, naming the container.
    /// Whether it is found depends on the disk alone.
    pub fn find(common: &str, version: RunTimeVersion) -> (r: Result<String, Error>)
        ensures
            match r {
                Ok(p) => p@ == runtime_path_spec(common@, version),
                Err(e) => e.kind == Kind::RuntimeMissing && e.message@ == install_name_spec(
                    version,
                ),
            },
    {
        let mut p = common.to_owned();
        p.append("/");
        let name = version.install_name();
        p.append(name.as_str());
        p.append("/run");
        if crate::sys::path_exists(p.as_str()) {
            Ok(p)
        } else {
            Err(Error::new(Kind::RuntimeMissing, version.install_name()))
        }
    }

    /// Composes the runtime-wrapped launch: the container's launcher is
    /// spawned with the compatibility tool, `runinprefix`, the program and
    /// its arguments, under the same environment as a direct launch.
    pub fn invocation(&self) -> (c: Invocation)
        ensures
            c.program@ == self.path@,
            c.args.deep_view() == wrapped_args_spec(self.proton),
            c.envs.deep_view() == base_env_spec(self.proton),
    {
        let mut args: Vec<String> = Vec::new();
        args.push(self.proton.path.clone());
        args.push("runinprefix".to_owned());
        args.push(self.proton.program.clone());
        proof {
            assert(args.deep_view() =~= seq![
                self.proton.path@,
                "runinprefix"@,
                self.proton.program@,
            ]);
        }
        let args = self.proton.push_own_args(args);
        let envs = self.proton.compose_envs();
        Invocation { program: self.path.clone(), args, envs }
    }
}

} // verus!
