//! The vocabulary of nix's `internal-json` log format: activity kinds,
//! verbosity levels, the four actions, output names and build hosts.
use vstd::prelude::*;
use vstd::string::StringExecFns;
use crate::lowercase::{lowercase, to_lowercase};
use crate::text::{copy_string, str_eq};

verus! {

/// Identifier nix gives each activity.
pub type Id = u64;

/// Kinds of activities nix reports.
#[derive(Debug, Clone, Copy, PartialEq, Eq, Structural)]
pub enum Activities {
    Unknown,
    CopyPath,
    FileTransfer,
    Realise,
    CopyPaths,
    Builds,
    Build,
    OptimiseStore,
    VerifyPath,
    Substitute,
    QueryPathInfo,
    PostBuildHook,
    BuildWaiting,
    FetchTree,
}

/// The wire code of each activity kind.
pub open spec fn activity_code(a: Activities) -> u8 {
    match a {
        Activities::Unknown => 0,
        Activities::CopyPath => 100,
        Activities::FileTransfer => 101,
        Activities::Realise => 102,
        Activities::CopyPaths => 103,
        Activities::Builds => 104,
        Activities::Build => 105,
        Activities::OptimiseStore => 106,
        Activities::VerifyPath => 107,
        Activities::Substitute => 108,
        Activities::QueryPathInfo => 109,
        Activities::PostBuildHook => 110,
        Activities::BuildWaiting => 111,
        Activities::FetchTree => 112,
    }
}

impl Activities {
    /// The wire code of this activity kind.
    pub fn code(&self) -> (r: u8)
        ensures
            r == activity_code(*self),
    {
        match self {
            Activities::Unknown => 0,
            Activities::CopyPath => 100,
            Activities::FileTransfer => 101,
            Activities::Realise => 102,
            Activities::CopyPaths => 103,
            Activities::Builds => 104,
            Activities::Build => 105,
            Activities::OptimiseStore => 106,
            Activities::VerifyPath => 107,
            Activities::Substitute => 108,
            Activities::QueryPathInfo => 109,
            Activities::PostBuildHook => 110,
            Activities::BuildWaiting => 111,
            Activities::FetchTree => 112,
        }
    }

    /// The activity kind with the given wire code, if there is one.
    pub fn from_code(code: u8) -> (r: Option<Self>)
        ensures
            r matches Some(a) ==> activity_code(a) == code,
            r is None <==> !(code == 0 || (100 <= code && code <= 112)),
    {
        match code {
            0 => Some(Activities::Unknown),
            100 => Some(Activities::CopyPath),
            101 => Some(Activities::FileTransfer),
            102 => Some(Activities::Realise),
            103 => Some(Activities::CopyPaths),
            104 => Some(Activities::Builds),
            105 => Some(Activities::Build),
            106 => Some(Activities::OptimiseStore),
            107 => Some(Activities::VerifyPath),
            108 => Some(Activities::Substitute),
            109 => Some(Activities::QueryPathInfo),
            110 => Some(Activities::PostBuildHook),
            111 => Some(Activities::BuildWaiting),
            112 => Some(Activities::FetchTree),
            _ => None,
        }
    }
}

/// Verbosity levels of nix messages, from most to least severe.
#[derive(Debug, Clone, Copy, PartialEq, Eq, Structural)]
pub enum Verbosity {
    Error,
    Warning,
    Notice,
    Info,
    Talkative,
    Chatty,
    Debug,
    Vomit,
}

pub open spec fn verbosity_code(v: Verbosity) -> u8 {
    match v {
        Verbosity::Error => 0,
        Verbosity::Warning => 1,
        Verbosity::Notice => 2,
        Verbosity::Info => 3,
        Verbosity::Talkative => 4,
        Verbosity::Chatty => 5,
        Verbosity::Debug => 6,
        Verbosity::Vomit => 7,
    }
}

impl Verbosity {
    /// The wire code of this level.
    pub fn code(&self) -> (r: u8)
        ensures
            r == verbosity_code(*self),
    {
        match self {
            Verbosity::Error => 0,
            Verbosity::Warning => 1,
            Verbosity::Notice => 2,
            Verbosity::Info => 3,
            Verbosity::Talkative => 4,
            Verbosity::Chatty => 5,
            Verbosity::Debug => 6,
            Verbosity::Vomit => 7,
        }
    }

    /// The level with the given wire code, if there is one.
    pub fn from_code(code: u8) -> (r: Option<Self>)
        ensures
            r matches Some(v) ==> verbosity_code(v) == code,
            r is None <==> code > 7,
    {
        match code {
            0 => Some(Verbosity::Error),
            1 => Some(Verbosity::Warning),
            2 => Some(Verbosity::Notice),
            3 => Some(Verbosity::Info),
            4 => Some(Verbosity::Talkative),
            5 => Some(Verbosity::Chatty),
            6 => Some(Verbosity::Debug),
            7 => Some(Verbosity::Vomit),
            _ => None,
        }
    }
}

/// One value of an action's `fields` list, as far as the monitor reads it: a
/// string, a non-negative integer, or anything else.
#[derive(Debug, Clone)]
pub enum FieldValue {
    Str(String),
    UInt(u64),
    Other,
}

impl FieldValue {
    /// The string held, if the value is a string.
    pub fn as_str(&self) -> (r: Option<&str>)
        ensures
            match *self {
                FieldValue::Str(s) => r matches Some(t) && t@ == s@,
                _ => r is None,
            },
    {
        match self {
            FieldValue::Str(s) => Some(s.as_str()),
            _ => None,
        }
    }

    /// The integer held, if the value is a non-negative integer.
    pub fn as_u64(&self) -> (r: Option<u64>)
        ensures
            match *self {
                FieldValue::UInt(n) => r == Some(n),
                _ => r is None,
            },
    {
        match self {
            FieldValue::UInt(n) => Some(*n),
            _ => None,
        }
    }
}

/// The four actions of the internal-json log format.
#[derive(Debug, Clone)]
pub enum Actions {
    Start {
        id: Id,
        level: Verbosity,
        parent: Id,
        text: String,
        activity: Activities,
        fields: Vec<FieldValue>,
    },
    Stop { id: Id },
    Message { level: Verbosity, msg: String },
    Result { fields: Vec<FieldValue>, id: Id, activity: Activities },
}

/// Progress of the whole monitored run.
#[derive(Debug, Clone, Copy, PartialEq, Eq, Structural)]
pub enum ProgressState {
    JustStarted,
    InputReceived,
    Finished,
}

/// Name of a derivation output.
#[derive(Debug, Clone)]
pub enum OutputName {
    Out,
    Doc,
    Dev,
    Bin,
    Info,
    Lib,
    Man,
    Dist,
    Other(String),
}

/// What an output name parses to, given its lower-cased form `l` and the
/// text `s` as written (kept so when it names no standard output).
pub open spec fn output_name_of(l: Seq<char>, s: Seq<char>) -> OutputNameView {
    if l == "out"@ {
        OutputNameView::Out
    } else if l == "doc"@ {
        OutputNameView::Doc
    } else if l == "dev"@ {
        OutputNameView::Dev
    } else if l == "bin"@ {
        OutputNameView::Bin
    } else if l == "info"@ {
        OutputNameView::Info
    } else if l == "lib"@ {
        OutputNameView::Lib
    } else if l == "man"@ {
        OutputNameView::Man
    } else if l == "dist"@ {
        OutputNameView::Dist
    } else {
        OutputNameView::Other(s)
    }
}

/// Mathematical model of an output name.
pub enum OutputNameView {
    Out,
    Doc,
    Dev,
    Bin,
    Info,
    Lib,
    Man,
    Dist,
    Other(Seq<char>),
}

impl View for OutputName {
    type V = OutputNameView;

    open spec fn view(&self) -> OutputNameView {
        match self {
            OutputName::Out => OutputNameView::Out,
            OutputName::Doc => OutputNameView::Doc,
            OutputName::Dev => OutputNameView::Dev,
            OutputName::Bin => OutputNameView::Bin,
            OutputName::Info => OutputNameView::Info,
            OutputName::Lib => OutputNameView::Lib,
            OutputName::Man => OutputNameView::Man,
            OutputName::Dist => OutputNameView::Dist,
            OutputName::Other(s) => OutputNameView::Other(s@),
        }
    }
}

impl OutputName {
    /// Parses an output name whose lower-cased form `l` is already known.
    pub fn parse_lowercased(l: &str, name: &str) -> (r: Self)
        ensures
            r@ == output_name_of(l@, name@),
    {
        if str_eq(l, "out") {
            OutputName::Out
        } else if str_eq(l, "doc") {
            OutputName::Doc
        } else if str_eq(l, "dev") {
            OutputName::Dev
        } else if str_eq(l, "bin") {
            OutputName::Bin
        } else if str_eq(l, "info") {
            OutputName::Info
        } else if str_eq(l, "lib") {
            OutputName::Lib
        } else if str_eq(l, "man") {
            OutputName::Man
        } else if str_eq(l, "dist") {
            OutputName::Dist
        } else {
            OutputName::Other(String::from_str(name))
        }
    }

    /// Parses an output name, ignoring case for the standard outputs.
    pub fn parse(name: &str) -> (r: Self)
        ensures
            r@ == output_name_of(lowercase(name@), name@),
    {
        let l = to_lowercase(name);
        Self::parse_lowercased(l.as_str(), name)
    }

    /// Whether two output names are the same output.
    pub fn same(&self, other: &OutputName) -> (r: bool)
        ensures
            r == (self@ == other@),
    {
        match (self, other) {
            (OutputName::Out, OutputName::Out) => true,
            (OutputName::Doc, OutputName::Doc) => true,
            (OutputName::Dev, OutputName::Dev) => true,
            (OutputName::Bin, OutputName::Bin) => true,
            (OutputName::Info, OutputName::Info) => true,
            (OutputName::Lib, OutputName::Lib) => true,
            (OutputName::Man, OutputName::Man) => true,
            (OutputName::Dist, OutputName::Dist) => true,
            (OutputName::Other(a), OutputName::Other(b)) => str_eq(a.as_str(), b.as_str()),
            _ => false,
        }
    }
}

/// A machine that builds: this one, or a remote builder by name.
#[derive(Debug, Clone)]
pub enum Host {
    Localhost,
    Remote(String),
}

/// Mathematical model of a host.
pub enum HostView {
    Localhost,
    Remote(Seq<char>),
}

impl View for Host {
    type V = HostView;

    open spec fn view(&self) -> HostView {
        match self {
            Host::Localhost => HostView::Localhost,
            Host::Remote(s) => HostView::Remote(s@),
        }
    }
}

/// The name shown for a host.
pub open spec fn host_name(h: HostView) -> Seq<char> {
    match h {
        HostView::Localhost => "localhost"@,
        HostView::Remote(s) => s,
    }
}

impl Host {
    /// The name shown for this host: `localhost`, or the remote builder's name.
    pub fn name(&self) -> (r: &str)
        ensures
            r@ == host_name(self@),
    {
        match self {
            Host::Localhost => "localhost",
            Host::Remote(name) => name.as_str(),
        }
    }

    /// A copy of this host.
    pub fn copy(&self) -> (r: Host)
        ensures
            r@ == self@,
    {
        match self {
            Host::Localhost => Host::Localhost,
            Host::Remote(s) => Host::Remote(copy_string(s)),
        }
    }

    /// Whether two hosts are the same machine.
    pub fn same(&self, other: &Host) -> (r: bool)
        ensures
            r == (self@ == other@),
    {
        match (self, other) {
            (Host::Localhost, Host::Localhost) => true,
            (Host::Remote(a), Host::Remote(b)) => str_eq(a.as_str(), b.as_str()),
            _ => false,
        }
    }
}

} // verus!
