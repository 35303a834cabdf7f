//! The names under which a build leaves a shared library, by target system.

use vstd::prelude::*;

verus! {

/// A target system.
#[derive(Debug, PartialEq, Eq, Clone, Copy)]
pub enum Os {
    Linux,
    Windows,
    WindowsMsvc,
    Osx,
    OsxM1,
}

impl Os {
    /// Whether the target is Windows, with either toolchain.
    pub open spec fn spec_is_windows(&self) -> bool {
        *self == Os::Windows || *self == Os::WindowsMsvc
    }

    /// Whether the target is macOS, on either processor.
    pub open spec fn spec_is_osx(&self) -> bool {
        *self == Os::Osx || *self == Os::OsxM1
    }

    /// What the file name of a shared library begins with.
    pub open spec fn spec_prefix(&self) -> Seq<char> {
        if self.spec_is_windows() {
            ""@
        } else {
            "lib"@
        }
    }

    /// What the file name of a shared library ends with.
    pub open spec fn spec_suffix(&self) -> Seq<char> {
        match self {
            Os::Linux => ".so"@,
            Os::Windows | Os::WindowsMsvc => ".dll"@,
            Os::Osx | Os::OsxM1 => ".dylib"@,
        }
    }

    /// The target triple.
    pub open spec fn spec_target_triple(&self) -> Seq<char> {
        match self {
            Os::Linux => "x86_64-unknown-linux-gnu"@,
            Os::Windows => "x86_64-pc-windows-gnu"@,
            Os::WindowsMsvc => "x86_64-pc-windows-msvc"@,
            Os::Osx => "x86_64-apple-darwin"@,
            Os::OsxM1 => "aarch64-apple-darwin"@,
        }
    }

    /// Whether the target is Windows, with either toolchain.
    #[verifier::when_used_as_spec(spec_is_windows)]
    pub fn is_windows(&self) -> (out: bool)
        ensures
            out == self.spec_is_windows(),
    {
        match self {
            Os::Windows | Os::WindowsMsvc => true,
            _ => false,
        }
    }

    /// Whether the target is macOS, on either processor.
    #[verifier::when_used_as_spec(spec_is_osx)]
    pub fn is_osx(&self) -> (out: bool)
        ensures
            out == self.spec_is_osx(),
    {
        match self {
            Os::Osx | Os::OsxM1 => true,
            _ => false,
        }
    }

    /// What the file name of a shared library begins with: `lib`, but
    /// nothing on Windows.
    pub fn prefix(&self) -> (out: &'static str)
        ensures
            out@ == self.spec_prefix(),
    {
        match self {
            Os::Linux | Os::Osx | Os::OsxM1 => "lib",
            Os::Windows | Os::WindowsMsvc => "",
        }
    }

    /// What the file name of a shared library ends with.
    pub fn suffix(&self) -> (out: &'static str)
        ensures
            out@ == self.spec_suffix(),
    {
        match self {
            Os::Linux => ".so",
            Os::Windows | Os::WindowsMsvc => ".dll",
            Os::Osx | Os::OsxM1 => ".dylib",
        }
    }

    /// The file name of the shared library `name` as the build leaves it.
    pub fn name_to_dll_name(&self, name: &str) -> (out: String)
        ensures
            out@ == self.spec_prefix() + name@ + self.spec_suffix(),
    {
        let mut out = String::from_str(self.prefix());
        out.append(name);
        out.append(self.suffix());
        out
    }

    /// The file name of the shared library `name` as a plugin: `lib` and the
    /// name, with `prefix` before them where one is given.
    pub fn name_to_plugin_name(&self, name: &str, prefix: Option<&str>) -> (out: String)
        ensures
            out@ == (match prefix {
                Some(prefix) => prefix@,
                None => ""@,
            }) + "lib"@ + name@ + self.spec_suffix(),
    {
        let mut out = String::from_str(
            match prefix {
                Some(prefix) => prefix,
                None => "",
            },
        );
        out.append("lib");
        out.append(name);
        out.append(self.suffix());
        out
    }

    /// The target triple.
    pub fn target_triple(&self) -> (out: &'static str)
        ensures
            out@ == self.spec_target_triple(),
    {
        match self {
            Os::Linux => "x86_64-unknown-linux-gnu",
            Os::Windows => "x86_64-pc-windows-gnu",
            Os::WindowsMsvc => "x86_64-pc-windows-msvc",
            Os::Osx => "x86_64-apple-darwin",
            Os::OsxM1 => "aarch64-apple-darwin",
        }
    }

    /// The name of the directory of a release build, or of a debug build.
    pub fn release_or_debug(is_release: bool) -> (out: &'static str)
        ensures
            out@ == if is_release {
                "release"@
            } else {
                "debug"@
            },
    {
        if is_release {
            "release"
        } else {
            "debug"
        }
    }

    /// The directories that lead from the root of the workspace to the
    /// output of a build, outermost first.
    pub fn target_path(&self, is_release: bool) -> (out: Vec<&'static str>)
        ensures
            out@.len() == 3,
            out@[0]@ == "./target"@,
            out@[1]@ == self.spec_target_triple(),
            out@[2]@ == if is_release {
                "release"@
            } else {
                "debug"@
            },
    {
        let mut out: Vec<&'static str> = Vec::new();
        out.push("./target");
        out.push(self.target_triple());
        out.push(Os::release_or_debug(is_release));
        out
    }
}

} // verus!
