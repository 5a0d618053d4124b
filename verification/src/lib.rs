//! Resolves a requested compatibility-tool ("Proton") version to an on-disk
//! installation, optionally pairs it with a named runtime container, and
//! composes the process invocation (argument vector and environment) that
//! launches a target program inside that environment.
//!
//! Paths are carried as plain `String` values. Reading directories, the
//! cache file, creating the compatibility-data directory and spawning the
//! composed invocation are left to the embedding program; everything the
//! library decides or composes is specified and verified.

use vstd::prelude::*;

pub mod codec;
pub mod error;
pub mod index;
pub mod runtime;
pub mod runtime_options;
mod sys;
pub mod text;
pub mod version;

pub use error::Error;
pub use error::Kind;
pub use index::DirEntry;
pub use index::Index;
pub use runtime::Runtime;
pub use runtime::RunTimeVersion;
pub use runtime_options::RuntimeOption;
pub use version::Version;

use runtime_options::env_var_name_spec;
use version::render;

verus! {

/// Everything one launch needs: the resolved compatibility-tool path, the
/// target program, its arguments, the launch toggles, the two fixed
/// filesystem roots handed on as environment values, an optional runtime
/// container choice, and the root under which containers are found. The
/// bundle is immutable once built and consumed by a single launch.
#[derive(Debug)]
pub struct Proton {
    /// The requested compatibility-tool version.
    pub version: Version,
    /// Path of the compatibility-tool executable (the installation
    /// directory with `/proton` appended).
    pub path: String,
    /// Path of the program to run.
    pub program: String,
    /// Arguments handed to the program.
    pub args: Vec<String>,
    /// The requested launch toggles.
    pub options: Vec<RuntimeOption>,
    /// The compatibility-data root, promoted to the per-version
    /// subdirectory before launch.
    pub compat: String,
    /// The client installation path handed on at launch.
    pub steam: String,
    /// The runtime container to wrap the launch in, if any.
    pub runtime: Option<RunTimeVersion>,
    /// The root under which runtime containers are installed.
    pub common: String,
}

/// A fully composed process invocation: which executable to spawn, with
/// which argument vector, and which environment entries to add.
#[derive(Debug)]
pub struct Invocation {
    /// The executable to spawn.
    pub program: String,
    /// Its argument vector, in order.
    pub args: Vec<String>,
    /// The environment entries added for the child, in order.
    pub envs: Vec<(String, String)>,
}

/// The environment every launch carries: the two fixed path variables
/// followed by one `(name, "1")` pair per requested toggle, in order.
pub open spec fn base_env_spec(p: Proton) -> Seq<(Seq<char>, Seq<char>)> {
    seq![("STEAM_COMPAT_DATA_PATH"@, p.compat@), ("STEAM_COMPAT_CLIENT_INSTALL_PATH"@, p.steam@)]
        + p.options@.map_values(|o: RuntimeOption| (env_var_name_spec(o), "1"@))
}

/// The argument vector of a direct launch: `run`, the program, its
/// arguments.
pub open spec fn direct_args_spec(p: Proton) -> Seq<Seq<char>> {
    seq!["run"@, p.program@] + p.args.deep_view()
}

/// The argument vector of a runtime-wrapped launch: the compatibility
/// tool, `runinprefix`, the program, its arguments.
pub open spec fn wrapped_args_spec(p: Proton) -> Seq<Seq<char>> {
    seq![p.path@, "runinprefix"@, p.program@] + p.args.deep_view()
}

/// The per-version compatibility-data directory.
pub open spec fn compat_dir_spec(p: Proton) -> Seq<char> {
    p.compat@ + "/Proton "@ + render(p.version)
}

impl Proton {
    /// Bundles a launch, appending the executable name to the installation
    /// path.
    pub fn new(
        version: Version,
        path: String,
        program: String,
        args: Vec<String>,
        options: Vec<RuntimeOption>,
        compat: String,
        steam: String,
        runtime: Option<RunTimeVersion>,
        common: String,
    ) -> (p: Proton)
        ensures
            p.version == version,
            p.path@ == path@ + "/proton"@,
            p.program == program,
            p.args == args,
            p.options == options,
            p.compat == compat,
            p.steam == steam,
            p.runtime == runtime,
            p.common == common,
    {
        Proton { version, path, program, args, options, compat, steam, runtime, common }
            .update_path()
    }

    /// Appends the executable name to the installation path.
    pub fn update_path(self) -> (p: Proton)
        ensures
            p.path@ == self.path@ + "/proton"@,
            p.version == self.version,
            p.program == self.program,
            p.args == self.args,
            p.options == self.options,
            p.compat == self.compat,
            p.steam == self.steam,
            p.runtime == self.runtime,
            p.common == self.common,
    {
        let Proton { version, path, program, args, options, compat, steam, runtime, common } =
            self;
        let path = path.concat("/proton");
        Proton { version, path, program, args, options, compat, steam, runtime, common }
    }

    /// The per-version compatibility-data directory, exactly as
    /// [`compat_dir_spec`] describes.
    pub fn compat_dir(&self) -> (d: String)
        ensures
            d@ == compat_dir_spec(*self),
    {
        let mut d = self.compat.clone();
        d.append("/Proton ");
        let v = self.version.to_display();
        d.append(v.as_str());
        d
    }

    /// Replaces the compatibility-data root with the per-version
    /// subdirectory; the embedding program creates that directory on disk
    /// first.
    pub fn promote_compat(&mut self)
        ensures
            final(self).compat@ == compat_dir_spec(*old(self)),
            final(self).version == old(self).version,
            final(self).path == old(self).path,
            final(self).program == old(self).program,
            final(self).args == old(self).args,
            final(self).options == old(self).options,
            final(self).steam == old(self).steam,
            final(self).runtime == old(self).runtime,
            final(self).common == old(self).common,
    {
        let d = self.compat_dir();
        self.compat = d;
    }

    /// Checks that the compatibility-tool executable exists on disk; when
    /// it does not, the error is `ProtonMissing` and names the version.
    /// Whether the check passes depends on the disk alone.
    pub fn check_proton(&self) -> (r: Result<(), Error>)
        ensures
            r matches Err(e) ==> e.kind == Kind::ProtonMissing && e.message@ == render(
                self.version,
            ),
    {
        if crate::sys::path_exists(self.path.as_str()) {
            Ok(())
        } else {
            Err(Error::new(Kind::ProtonMissing, self.version.to_display()))
        }
    }

    /// Checks that the target program exists on disk; when it does not,
    /// the error is `ProgramMissing` and names the program path. Whether
    /// the check passes depends on the disk alone.
    pub fn check_program(&self) -> (r: Result<(), Error>)
        ensures
            r matches Err(e) ==> e.kind == Kind::ProgramMissing && e.message@ == self.program@,
    {
        if crate::sys::path_exists(self.program.as_str()) {
            Ok(())
        } else {
            Err(Error::new(Kind::ProgramMissing, self.program.clone()))
        }
    }

    /// Projects the requested toggles to `(environment variable, "1")`
    /// pairs, in order.
    pub fn gen_options(&self) -> (opts: Vec<(String, String)>)
        ensures
            opts.deep_view() == self.options@.map_values(
                |o: RuntimeOption| (env_var_name_spec(o), "1"@),
            ),
    {
        let ghost target = self.options@.map_values(
            |o: RuntimeOption| (env_var_name_spec(o), "1"@),
        );
        let mut opts: Vec<(String, String)> = Vec::new();
        let mut i: usize = 0;
        proof {
            assert(opts.deep_view() =~= target.take(0));
        }
        while i < self.options.len()
            invariant
                i <= self.options@.len(),
                target == self.options@.map_values(
                    |o: RuntimeOption| (env_var_name_spec(o), "1"@),
                ),
                opts.deep_view() == target.take(i as int),
            decreases self.options@.len() - i,
        {
            let ghost prev = opts.deep_view();
            let o = self.options[i];
            opts.push((o.env_var_name(), "1".to_owned()));
            proof {
                assert(opts.deep_view() =~= prev.push((env_var_name_spec(o), "1"@)));
                assert(target.take(i + 1) =~= target.take(i as int).push(target[i as int]));
            }
            i = i + 1;
        }
        proof {
            assert(target.take(target.len() as int) =~= target);
        }
        opts
    }

    /// Composes the direct launch: the compatibility tool itself is
    /// spawned with `run`, the program and its arguments, under the
    /// environment [`base_env_spec`] describes.
    pub fn invocation(&self) -> (c: Invocation)
        ensures
            c.program@ == self.path@,
            c.args.deep_view() == direct_args_spec(*self),
            c.envs.deep_view() == base_env_spec(*self),
    {
        let mut args: Vec<String> = Vec::new();
        args.push("run".to_owned());
        args.push(self.program.clone());
        proof {
            assert(args.deep_view() =~= seq!["run"@, self.program@]);
        }
        let args = self.push_own_args(args);
        let envs = self.compose_envs();
        Invocation { program: self.path.clone(), args, envs }
    }

    /// Appends the program's own arguments to a partial argument vector.
    pub(crate) fn push_own_args(&self, args: Vec<String>) -> (r: Vec<String>)
        ensures
            r.deep_view() == args.deep_view() + self.args.deep_view(),
    {
        let mut r = args;
        let ghost base = r.deep_view();
        let mut i: usize = 0;
        proof {
            assert(base + self.args.deep_view().take(0) =~= base);
        }
        while i < self.args.len()
            invariant
                i <= self.args@.len(),
                r.deep_view() == base + self.args.deep_view().take(i as int),
            decreases self.args@.len() - i,
        {
            let ghost prev = r.deep_view();
            r.push(self.args[i].clone());
            proof {
                assert(r.deep_view() =~= prev.push(self.args@[i as int]@));
                assert(self.args.deep_view()[i as int] == self.args@[i as int]@);
                assert(base + self.args.deep_view().take(i + 1) =~= (base
                    + self.args.deep_view().take(i as int)).push(
                    self.args.deep_view()[i as int],
                ));
            }
            i = i + 1;
        }
        proof {
            assert(self.args.deep_view().take(self.args.deep_view().len() as int)
                =~= self.args.deep_view());
        }
        r
    }

    /// Composes the launch environment: the two fixed path variables
    /// followed by the toggle pairs, exactly as [`base_env_spec`]
    /// describes.
    pub fn compose_envs(&self) -> (envs: Vec<(String, String)>)
        ensures
            envs.deep_view() == base_env_spec(*self),
    {
        let mut envs: Vec<(String, String)> = Vec::new();
        envs.push(("STEAM_COMPAT_DATA_PATH".to_owned(), self.compat.clone()));
        envs.push(("STEAM_COMPAT_CLIENT_INSTALL_PATH".to_owned(), self.steam.clone()));
        let ghost head = seq![
            ("STEAM_COMPAT_DATA_PATH"@, self.compat@),
            ("STEAM_COMPAT_CLIENT_INSTALL_PATH"@, self.steam@),
        ];
        proof {
            assert(envs.deep_view() =~= head);
        }
        let ghost target = self.options@.map_values(
            |o: RuntimeOption| (env_var_name_spec(o), "1"@),
        );
        let mut i: usize = 0;
        proof {
            assert(head + target.take(0) =~= head);
        }
        while i < self.options.len()
            invariant
                i <= self.options@.len(),
                target == self.options@.map_values(
                    |o: RuntimeOption| (env_var_name_spec(o), "1"@),
                ),
                envs.deep_view() == head + target.take(i as int),
            decreases self.options@.len() - i,
        {
            let ghost prev = envs.deep_view();
            let o = self.options[i];
            envs.push((o.env_var_name(), "1".to_owned()));
            proof {
                assert(envs.deep_view() =~= prev.push((env_var_name_spec(o), "1"@)));
                assert(head + target.take(i + 1) =~= (head + target.take(i as int)).push(
                    target[i as int],
                ));
            }
            i = i + 1;
        }
        proof {
            assert(target.take(target.len() as int) =~= target);
            assert(envs.deep_view() =~= base_env_spec(*self));
        }
        envs
    }
}

} // verus!
