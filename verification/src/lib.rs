//! Runtime engine of a command-line argument parser.
//!
//! Given a declarative list of argument descriptors (flags, options,
//! positionals) and the raw token vector a process received, the crate
//! normalizes the tokens into a canonical stream, binds values to each
//! descriptor, and validates the bound registry against usage rules.

use vstd::prelude::*;

pub mod arg;
pub mod error;
pub mod exit_code;
pub mod info;
pub mod laws;
pub mod normalize;
pub mod parser;
mod strutil;
pub mod validate;

pub use arg::Arg;
pub use error::Error;
pub use exit_code::ExitCode;
pub use info::Info;
pub use normalize::normalize_env_args;
pub use parser::{parse_value, Parser, VALUE_SEPARATOR};
pub use validate::validate_usage;

use arg::{ArgView, ValueKind};

verus! {

/// `std::sync::Mutex`, which app code wraps registries in; the
/// library itself never locks.
#[verifier::external_type_specification]
#[verifier::external_body]
#[verifier::reject_recursive_types(T)]
pub struct ExMutex<T: ?Sized>(std::sync::Mutex<T>);

/// What a command-line struct offers its users: parse the raw tokens
/// into a filled value of the struct, and expose the registry the
/// parse was made from. Implementations live with the caller; the
/// library only fixes the shape.
pub trait Kurisu {
    fn from_args(env_args: Vec<String>) -> Self where Self: Sized;

    fn get_info_instance(env_args: Vec<String>) -> &'static std::sync::Mutex<Info>;
}

/// The name of the built-in help descriptor.
pub open spec fn usage_name() -> Seq<char> {
    seq!['u', 's', 'a', 'g', 'e']
}

/// The name of the built-in version descriptor.
pub open spec fn version_name() -> Seq<char> {
    seq!['v', 'e', 'r', 's', 'i', 'o', 'n']
}

/// A descriptor that stops the run when it occurs: a custom exit hook,
/// or one of the built-in help and version descriptors.
pub open spec fn is_exit_arg(a: ArgView) -> bool {
    a.has_exit || a.name == usage_name() || a.name == version_name()
}

/// First exit descriptor that occurred at least once.
pub open spec fn first_exit_ix(descs: Seq<ArgView>, from: int) -> int
    decreases descs.len() - from,
{
    if from < 0 || from >= descs.len() {
        descs.len() as int
    } else if is_exit_arg(descs[from]) && descs[from].occurrences > 0 {
        from
    } else {
        first_exit_ix(descs, from + 1)
    }
}

proof fn lemma_first_exit_ix(descs: Seq<ArgView>, from: int)
    requires
        0 <= from <= descs.len(),
    ensures
        from <= first_exit_ix(descs, from) <= descs.len(),
        first_exit_ix(descs, from) < descs.len() ==> is_exit_arg(
            descs[first_exit_ix(descs, from)],
        ) && descs[first_exit_ix(descs, from)].occurrences > 0,
        forall|j: int|
            from <= j < first_exit_ix(descs, from) ==> !(is_exit_arg(#[trigger] descs[j])
                && descs[j].occurrences > 0),
    decreases descs.len() - from,
{
    if from < descs.len() && !(is_exit_arg(descs[from]) && descs[from].occurrences > 0) {
        lemma_first_exit_ix(descs, from + 1);
    }
}

/// What the program must do before ordinary work continues.
#[derive(Debug, PartialEq)]
pub enum ExitRequest {
    /// Print the version line and exit.
    Version,
    /// Print the usage screen and exit.
    Usage,
    /// Run the named descriptor's custom exit hook and exit.
    Custom(String),
}

/// Mathematical image of an exit request.
pub ghost enum ExitRequestView {
    Version,
    Usage,
    Custom(Seq<char>),
}

impl View for ExitRequest {
    type V = ExitRequestView;

    open spec fn view(&self) -> ExitRequestView {
        match self {
            ExitRequest::Version => ExitRequestView::Version,
            ExitRequest::Usage => ExitRequestView::Usage,
            ExitRequest::Custom(s) => ExitRequestView::Custom(s@),
        }
    }
}

/// What `exit_args` must report for a bound registry: the first exit
/// descriptor that occurred decides, the built-in names before a
/// custom hook.
pub open spec fn exit_request_of(descs: Seq<ArgView>) -> Option<ExitRequestView> {
    let ix = first_exit_ix(descs, 0);
    if ix >= descs.len() {
        None
    } else if descs[ix].name == version_name() {
        Some(ExitRequestView::Version)
    } else if descs[ix].name == usage_name() {
        Some(ExitRequestView::Usage)
    } else {
        Some(ExitRequestView::Custom(descs[ix].name))
    }
}

pub open spec fn opt_exit_view(r: Option<ExitRequest>) -> Option<ExitRequestView> {
    match r {
        Some(e) => Some(e@),
        None => None,
    }
}

/// Decide whether an exit descriptor fired: the caller performs the
/// request (printing, or running its own hook table) and exits.
pub fn exit_args(info: &Info) -> (r: Option<ExitRequest>)
    ensures
        opt_exit_view(r) == exit_request_of(info@.args),
{
    let ghost descs = info.args.deep_view();
    proof {
        reveal_strlit("usage");
        reveal_strlit("version");
        assert("usage"@ =~= usage_name());
        assert("version"@ =~= version_name());
    }
    let mut j: usize = 0;
    while j < info.args.len()
        invariant
            j <= info.args@.len(),
            descs == info.args.deep_view(),
            forall|m: int|
                0 <= m < j ==> !(is_exit_arg(#[trigger] descs[m]) && descs[m].occurrences > 0),
        decreases info.args@.len() - j,
    {
        let a = &info.args[j];
        proof {
            reveal_strlit("usage");
            reveal_strlit("version");
            assert("usage"@ =~= usage_name());
            assert("version"@ =~= version_name());
        }
        let is_version = strutil::str_eq(a.name.as_str(), "version");
        let is_usage = strutil::str_eq(a.name.as_str(), "usage");
        if (a.has_exit || is_usage || is_version) && a.occurrences > 0 {
            proof {
                assert(is_exit_arg(descs[j as int]) && descs[j as int].occurrences > 0);
                lemma_first_exit_ix(descs, 0);
                let ix = first_exit_ix(descs, 0);
                if ix < j {
                    assert(is_exit_arg(descs[ix]) && descs[ix].occurrences > 0);
                }
            }
            if is_version {
                return Some(ExitRequest::Version);
            } else if is_usage {
                return Some(ExitRequest::Usage);
            } else {
                return Some(ExitRequest::Custom(a.name.clone()));
            }
        }
        proof {
            assert(!(is_exit_arg(descs[j as int]) && descs[j as int].occurrences > 0));
        }
        j += 1;
    }
    proof {
        lemma_first_exit_ix(descs, 0);
        let ix = first_exit_ix(descs, 0);
        if ix < descs.len() {
            assert(is_exit_arg(descs[ix]) && descs[ix].occurrences > 0);
        }
    }
    None
}

/// The two descriptors every registry carries: `usage` under
/// `-h`/`--help` and `version` under `-V`/`--version`, both plain
/// flags defaulting to `"false"`.
pub fn builtin_args() -> (r: Vec<Arg>)
    ensures
        r.deep_view().len() == 2,
        ({
            let u = r.deep_view()[0];
            u.name == "usage"@ && u.short == Some("h"@) && u.long == Some("help"@)
                && u.value_type == ValueKind::NoValue && u.default == "false"@ && u.doc == Some(
                "Prints this message"@,
            ) && u.position is None && u.value.len() == 0 && u.occurrences == 0 && u.aliases.len()
                == 0 && u.env is None && u.env_prefix is None && u.required_if is None && u.vname
                is None && !u.has_exit
        }),
        ({
            let v = r.deep_view()[1];
            v.name == "version"@ && v.short == Some("V"@) && v.long == Some("version"@)
                && v.value_type == ValueKind::NoValue && v.default == "false"@ && v.doc == Some(
                "Prints version information"@,
            ) && v.position is None && v.value.len() == 0 && v.occurrences == 0 && v.aliases.len()
                == 0 && v.env is None && v.env_prefix is None && v.required_if is None && v.vname
                is None && !v.has_exit
        }),
{
    let usage = Arg {
        name: "usage".to_owned(),
        vname: None,
        value_type: ValueKind::NoValue,
        position: None,
        doc: Some("Prints this message".to_owned()),
        short: Some("h".to_owned()),
        long: Some("help".to_owned()),
        aliases: Vec::new(),
        has_exit: false,
        env: None,
        env_prefix: None,
        required_if: None,
        default: "false".to_owned(),
        value: Vec::new(),
        occurrences: 0,
    };
    let version = Arg {
        name: "version".to_owned(),
        vname: None,
        value_type: ValueKind::NoValue,
        position: None,
        doc: Some("Prints version information".to_owned()),
        short: Some("V".to_owned()),
        long: Some("version".to_owned()),
        aliases: Vec::new(),
        has_exit: false,
        env: None,
        env_prefix: None,
        required_if: None,
        default: "false".to_owned(),
        value: Vec::new(),
        occurrences: 0,
    };
    let mut r: Vec<Arg> = Vec::new();
    r.push(usage);
    r.push(version);
    assert(r.deep_view()[0].aliases =~= Seq::<Seq<char>>::empty());
    assert(r.deep_view()[0].value =~= Seq::<Seq<char>>::empty());
    assert(r.deep_view()[1].aliases =~= Seq::<Seq<char>>::empty());
    assert(r.deep_view()[1].value =~= Seq::<Seq<char>>::empty());
    r
}

} // verus!
