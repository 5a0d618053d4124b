//! Launch toggles: a closed set of boolean options, each bound 1:1 to one
//! environment variable that is set to `"1"` when the toggle is requested.

use crate::error::{Error, Kind};
use crate::text::chars_eq_str;
use crate::text::str_to_chars;
use vstd::prelude::*;

verus! {

/// One launch toggle. Each variant is spelled as the token that requests
/// it and maps to exactly one environment variable.
#[allow(non_camel_case_types)]
#[derive(Debug, Clone, Copy, PartialEq, Eq, Structural, PartialOrd, Ord)]
pub enum RuntimeOption {
    /// Dump a debug log (`PROTON_LOG`).
    log,
    /// Use OpenGL-based wined3d instead of Vulkan-based DXVK
    /// (`PROTON_USE_WINED3D`).
    wined3d,
    /// Disable `d3d11.dll` (`PROTON_NO_D3D11`).
    nod3d11,
    /// Disable `d3d10.dll` and `dxgi.dll` (`PROTON_NO_D3D10`).
    nod3d10,
    /// Skip eventfd-based in-process synchronisation (`PROTON_NO_ESYNC`).
    noesync,
    /// Skip futex-based in-process synchronisation (`PROTON_NO_FSYNC`).
    nofsync,
    /// Enable NVIDIA's NVAPI support library (`PROTON_ENABLE_NVAPI`).
    enablenvapi,
}

/// The environment variable each toggle drives.
pub open spec fn env_var_name_spec(o: RuntimeOption) -> Seq<char> {
    match o {
        RuntimeOption::log => "PROTON_LOG"@,
        RuntimeOption::wined3d => "PROTON_USE_WINED3D"@,
        RuntimeOption::nod3d11 => "PROTON_NO_D3D11"@,
        RuntimeOption::nod3d10 => "PROTON_NO_D3D10"@,
        RuntimeOption::noesync => "PROTON_NO_ESYNC"@,
        RuntimeOption::nofsync => "PROTON_NO_FSYNC"@,
        RuntimeOption::enablenvapi => "PROTON_ENABLE_NVAPI"@,
    }
}

/// What parsing a toggle token yields: the lowercase spelling of each
/// variant, with `"nvapi"` accepted as an alias for `enablenvapi`; any
/// other token is rejected.
pub open spec fn runtime_option_parse_spec(s: Seq<char>) -> Option<RuntimeOption> {
    if s == "log"@ {
        Some(RuntimeOption::log)
    } else if s == "wined3d"@ {
        Some(RuntimeOption::wined3d)
    } else if s == "nod3d11"@ {
        Some(RuntimeOption::nod3d11)
    } else if s == "nod3d10"@ {
        Some(RuntimeOption::nod3d10)
    } else if s == "noesync"@ {
        Some(RuntimeOption::noesync)
    } else if s == "nofsync"@ {
        Some(RuntimeOption::nofsync)
    } else if s == "enablenvapi"@ || s == "nvapi"@ {
        Some(RuntimeOption::enablenvapi)
    } else {
        None
    }
}

impl RuntimeOption {
    /// The name of the environment variable this toggle drives.
    pub fn env_var_name(&self) -> (r: String)
        ensures
            r@ == env_var_name_spec(*self),
    {
        match self {
            RuntimeOption::log => "PROTON_LOG".to_owned(),
            RuntimeOption::wined3d => "PROTON_USE_WINED3D".to_owned(),
            RuntimeOption::nod3d11 => "PROTON_NO_D3D11".to_owned(),
            RuntimeOption::nod3d10 => "PROTON_NO_D3D10".to_owned(),
            RuntimeOption::noesync => "PROTON_NO_ESYNC".to_owned(),
            RuntimeOption::nofsync => "PROTON_NO_FSYNC".to_owned(),
            RuntimeOption::enablenvapi => "PROTON_ENABLE_NVAPI".to_owned(),
        }
    }

    /// Parses a toggle token, exactly as [`runtime_option_parse_spec`]
    /// describes; an unrecognised token is rejected with a
    /// `ParseRuntimeOpt` error carrying the offending token.
    pub fn parse(s: &str) -> (r: Result<RuntimeOption, Error>)
        ensures
            match r {
                Ok(o) => runtime_option_parse_spec(s@) == Some(o),
                Err(e) => {
                    &&& runtime_option_parse_spec(s@) is None
                    &&& e.kind == Kind::ParseRuntimeOpt
                    &&& e.message@ == s@
                },
            },
    {
        let v = str_to_chars(s);
        if chars_eq_str(&v, "log") {
            Ok(RuntimeOption::log)
        } else if chars_eq_str(&v, "wined3d") {
            Ok(RuntimeOption::wined3d)
        } else if chars_eq_str(&v, "nod3d11") {
            Ok(RuntimeOption::nod3d11)
        } else if chars_eq_str(&v, "nod3d10") {
            Ok(RuntimeOption::nod3d10)
        } else if chars_eq_str(&v, "noesync") {
            Ok(RuntimeOption::noesync)
        } else if chars_eq_str(&v, "nofsync") {
            Ok(RuntimeOption::nofsync)
        } else if chars_eq_str(&v, "enablenvapi") || chars_eq_str(&v, "nvapi") {
            Ok(RuntimeOption::enablenvapi)
        } else {
            Err(Error::new(Kind::ParseRuntimeOpt, s.to_owned()))
        }
    }
}

} // verus!
