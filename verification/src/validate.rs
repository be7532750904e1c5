//! The Usage Validator: a pure read over the bound registry that
//! reports the first violated usage rule, or nothing.

use vstd::prelude::*;

use crate::arg::{ddash, Arg, ArgPosition, ArgView};
use crate::error::{opt_error_view, Error, ErrorView};
use crate::info::{Info, InfoView};
use crate::normalize::{find_match, first_match_ix};
use crate::strutil::str_eq;

verus! {

/// Some descriptor claims the fixed position `k`.
pub open spec fn descs_has_fixed(descs: Seq<ArgView>, k: int) -> bool {
    exists|j: int|
        0 <= j < descs.len() && ((#[trigger] descs[j]).position matches Some(
            ArgPosition::Fixed(m),
        ) && m as int == k)
}

/// Some descriptor absorbs unclaimed positional tokens.
pub open spec fn descs_has_infinite(descs: Seq<ArgView>) -> bool {
    exists|j: int|
        0 <= j < descs.len() && (#[trigger] descs[j]).position == Some(ArgPosition::Infinite)
}

/// Some descriptor binds the final token.
pub open spec fn descs_has_last(descs: Seq<ArgView>) -> bool {
    exists|j: int|
        0 <= j < descs.len() && (#[trigger] descs[j]).position == Some(ArgPosition::Last)
}

/// The first token of the canonical stream that neither matches a
/// descriptor nor is claimable by a positional slot, scanning from
/// index `i` with positional counter `pos` and end-of-options flag
/// `oe`, exactly as the Value Binder classifies tokens: the first
/// lone `--` is consumed silently and every later token counts as
/// positional. The normalizer drops that marker before the stream
/// gets here, so the marker branch only matters to direct callers.
pub open spec fn scan_invalid(
    descs: Seq<ArgView>,
    args: Seq<Seq<char>>,
    i: int,
    pos: int,
    oe: bool,
) -> Option<Seq<char>>
    decreases args.len() - i,
{
    if i < 0 || i >= args.len() {
        None
    } else {
        let t = args[i];
        if !oe && t == ddash() {
            scan_invalid(descs, args, i + 1, pos, true)
        } else if !oe && first_match_ix(descs, t, 0) < descs.len() {
            scan_invalid(descs, args, i + 1, pos, oe)
        } else if oe || t.len() == 0 || t[0] != '-' || t.len() == 1 {
            let p = pos + 1;
            if descs_has_fixed(descs, p) || descs_has_infinite(descs) || (descs_has_last(descs)
                && i == args.len() - 1) {
                scan_invalid(descs, args, i + 1, p, oe)
            } else {
                Some(t)
            }
        } else {
            Some(t)
        }
    }
}

/// First descriptor with a declared position and no bound value.
pub open spec fn first_missing_positional(descs: Seq<ArgView>, from: int) -> int
    decreases descs.len() - from,
{
    if from < 0 || from >= descs.len() {
        descs.len() as int
    } else if descs[from].position is Some && descs[from].value.len() == 0 {
        from
    } else {
        first_missing_positional(descs, from + 1)
    }
}

/// First descriptor that was invoked but has no bound value.
pub open spec fn first_missing_value(descs: Seq<ArgView>, from: int) -> int
    decreases descs.len() - from,
{
    if from < 0 || from >= descs.len() {
        descs.len() as int
    } else if descs[from].occurrences > 0 && descs[from].value.len() == 0 {
        from
    } else {
        first_missing_value(descs, from + 1)
    }
}

/// First descriptor with the given name.
pub open spec fn first_name_ix(descs: Seq<ArgView>, name: Seq<char>, from: int) -> int
    decreases descs.len() - from,
{
    if from < 0 || from >= descs.len() {
        descs.len() as int
    } else if descs[from].name == name {
        from
    } else {
        first_name_ix(descs, name, from + 1)
    }
}

/// The conditional-requirement rule fails at `j`: the descriptor
/// names a trigger, the trigger exists and fired, and `j` is unbound.
pub open spec fn req_if_violated(descs: Seq<ArgView>, j: int) -> bool {
    &&& descs[j].required_if is Some
    &&& ({
        let k = first_name_ix(descs, descs[j].required_if->0, 0);
        k < descs.len() && descs[k].occurrences > 0 && descs[j].value.len() == 0
    })
}

/// First descriptor whose conditional requirement is violated.
pub open spec fn first_req_if(descs: Seq<ArgView>, from: int) -> int
    decreases descs.len() - from,
{
    if from < 0 || from >= descs.len() {
        descs.len() as int
    } else if req_if_violated(descs, from) {
        from
    } else {
        first_req_if(descs, from + 1)
    }
}

/// The validator's verdict on a bound registry, first failing check
/// first: an empty stream against the no-argument policy, then the
/// token scan, then unbound positionals, then invoked options without
/// a value, then violated conditional requirements.
pub open spec fn validate_spec(info: InfoView) -> Option<ErrorView> {
    if info.env_args.len() == 0 && !info.allow_noargs {
        Some(ErrorView::NoArgs)
    } else {
        let inv = scan_invalid(info.args, info.env_args, 0, 0, false);
        if inv is Some {
            Some(ErrorView::Invalid(inv->0))
        } else {
            let j1 = first_missing_positional(info.args, 0);
            if j1 < info.args.len() {
                Some(ErrorView::RequiresPositional(info.args[j1]))
            } else {
                let j2 = first_missing_value(info.args, 0);
                if j2 < info.args.len() {
                    Some(ErrorView::RequiresValue(info.args[j2]))
                } else {
                    let j3 = first_req_if(info.args, 0);
                    if j3 < info.args.len() {
                        let k = first_name_ix(info.args, info.args[j3].required_if->0, 0);
                        Some(ErrorView::RequiresValueIf(info.args[k], info.args[j3]))
                    } else {
                        None
                    }
                }
            }
        }
    }
}

fn fixed_at(args: &Vec<Arg>, k: usize) -> (r: bool)
    ensures
        r == descs_has_fixed(args.deep_view(), k as int),
{
    let mut j: usize = 0;
    while j < args.len()
        invariant
            j <= args@.len(),
            forall|m: int|
                0 <= m < j ==> !((#[trigger] args.deep_view()[m]).position matches Some(
                    ArgPosition::Fixed(q),
                ) && q as int == k as int),
        decreases args@.len() - j,
    {
        if let Some(ArgPosition::Fixed(m)) = args[j].position {
            if m == k {
                assert((args.deep_view()[j as int].position matches Some(ArgPosition::Fixed(q))
                    && q as int == k as int));
                return true;
            }
        }
        j += 1;
    }
    false
}

fn has_infinite_desc(args: &Vec<Arg>) -> (r: bool)
    ensures
        r == descs_has_infinite(args.deep_view()),
{
    let mut j: usize = 0;
    while j < args.len()
        invariant
            j <= args@.len(),
            forall|m: int|
                0 <= m < j ==> (#[trigger] args.deep_view()[m]).position != Some(
                    ArgPosition::Infinite,
                ),
        decreases args@.len() - j,
    {
        if let Some(ArgPosition::Infinite) = args[j].position {
            assert(args.deep_view()[j as int].position == Some(ArgPosition::Infinite));
            return true;
        }
        assert(args.deep_view()[j as int].position != Some(ArgPosition::Infinite));
        j += 1;
    }
    false
}

fn has_last_desc(args: &Vec<Arg>) -> (r: bool)
    ensures
        r == descs_has_last(args.deep_view()),
{
    let mut j: usize = 0;
    while j < args.len()
        invariant
            j <= args@.len(),
            forall|m: int|
                0 <= m < j ==> (#[trigger] args.deep_view()[m]).position != Some(
                    ArgPosition::Last,
                ),
        decreases args@.len() - j,
    {
        if let Some(ArgPosition::Last) = args[j].position {
            assert(args.deep_view()[j as int].position == Some(ArgPosition::Last));
            return true;
        }
        assert(args.deep_view()[j as int].position != Some(ArgPosition::Last));
        j += 1;
    }
    false
}

pub(crate) fn find_name(args: &Vec<Arg>, name: &str) -> (r: Option<usize>)
    ensures
        ({
            let ix = first_name_ix(args.deep_view(), name@, 0);
            match r {
                Some(k) => k as int == ix && ix < args.deep_view().len(),
                None => ix == args.deep_view().len(),
            }
        }),
{
    let mut j: usize = 0;
    while j < args.len()
        invariant
            j <= args@.len(),
            forall|m: int| 0 <= m < j ==> (#[trigger] args.deep_view()[m]).name != name@,
        decreases args@.len() - j,
    {
        if str_eq(args[j].name.as_str(), name) {
            proof {
                assert(args.deep_view()[j as int].name == name@);
                lemma_first_name_ix(args.deep_view(), name@, 0);
                let ix = first_name_ix(args.deep_view(), name@, 0);
                if ix < j {
                    assert(args.deep_view()[ix].name == name@);
                }
            }
            return Some(j);
        }
        assert(args.deep_view()[j as int].name != name@);
        j += 1;
    }
    proof {
        lemma_first_name_ix(args.deep_view(), name@, 0);
        let ix = first_name_ix(args.deep_view(), name@, 0);
        if ix < args.deep_view().len() {
            assert(args.deep_view()[ix].name == name@);
        }
    }
    None
}

pub proof fn lemma_first_name_ix(descs: Seq<ArgView>, name: Seq<char>, from: int)
    requires
        0 <= from <= descs.len(),
    ensures
        from <= first_name_ix(descs, name, from) <= descs.len(),
        first_name_ix(descs, name, from) < descs.len() ==> descs[first_name_ix(
            descs,
            name,
            from,
        )].name == name,
        forall|j: int|
            from <= j < first_name_ix(descs, name, from) ==> (#[trigger] descs[j]).name != name,
    decreases descs.len() - from,
{
    if from < descs.len() && descs[from].name != name {
        lemma_first_name_ix(descs, name, from + 1);
    }
}

/// Cross-check the bound registry: report the first violated usage
/// rule, or nothing when the invocation is acceptable.
pub fn validate_usage(info: &Info) -> (r: Option<Error>)
    ensures
        opt_error_view(r) == validate_spec(info@),
{
    let ghost descs = info.args.deep_view();
    let ghost stream = info.env_args.deep_view();
    if info.env_args.len() == 0 && !info.allow_noargs {
        return Some(Error::NoArgs);
    }
    let n = info.env_args.len();
    let mut pos: usize = 0;
    let mut oe = false;
    let mut i: usize = 0;
    while i < n
        invariant
            i <= n,
            pos <= i,
            n == stream.len(),
            stream == info.env_args.deep_view(),
            descs == info.args.deep_view(),
            scan_invalid(descs, stream, 0, 0, false) == scan_invalid(
                descs,
                stream,
                i as int,
                pos as int,
                oe,
            ),
        decreases n - i,
    {
        let t: &String = &info.env_args[i];
        proof {
            assert(t@ == stream[i as int]);
            reveal_strlit("--");
            assert("--"@ =~= ddash());
        }
        if !oe && str_eq(t.as_str(), "--") {
            oe = true;
        } else if !oe && find_match(&info.args, t.as_str()).is_some() {
        } else {
            let tlen = t.as_str().unicode_len();
            let starts_dash = tlen >= 1 && t.as_str().get_char(0) == '-';
            if oe || !starts_dash || tlen == 1 {
                pos += 1;
                let claimable = fixed_at(&info.args, pos) || has_infinite_desc(&info.args) || (
                has_last_desc(&info.args) && i + 1 == n);
                if !claimable {
                    return Some(Error::Invalid(t.clone()));
                }
            } else {
                return Some(Error::Invalid(t.clone()));
            }
        }
        i += 1;
    }
    assert(scan_invalid(descs, stream, 0, 0, false) is None);
    let mut j: usize = 0;
    while j < info.args.len()
        invariant
            j <= info.args@.len(),
            descs == info.args.deep_view(),
            stream == info.env_args.deep_view(),
            !(info@.env_args.len() == 0 && !info@.allow_noargs),
            scan_invalid(descs, stream, 0, 0, false) is None,
            first_missing_positional(descs, 0) == first_missing_positional(descs, j as int),
        decreases info.args@.len() - j,
    {
        let a = &info.args[j];
        if a.position.is_some() && a.value.len() == 0 {
            assert(a@ == descs[j as int]);
            return Some(Error::RequiresPositional(a.clone()));
        }
        j += 1;
    }
    let mut j: usize = 0;
    while j < info.args.len()
        invariant
            j <= info.args@.len(),
            descs == info.args.deep_view(),
            stream == info.env_args.deep_view(),
            !(info@.env_args.len() == 0 && !info@.allow_noargs),
            scan_invalid(descs, stream, 0, 0, false) is None,
            first_missing_positional(descs, 0) == descs.len(),
            first_missing_value(descs, 0) == first_missing_value(descs, j as int),
        decreases info.args@.len() - j,
    {
        let a = &info.args[j];
        if a.occurrences > 0 && a.value.len() == 0 {
            assert(a@ == descs[j as int]);
            return Some(Error::RequiresValue(a.clone()));
        }
        j += 1;
    }
    let mut j: usize = 0;
    while j < info.args.len()
        invariant
            j <= info.args@.len(),
            descs == info.args.deep_view(),
            stream == info.env_args.deep_view(),
            !(info@.env_args.len() == 0 && !info@.allow_noargs),
            scan_invalid(descs, stream, 0, 0, false) is None,
            first_missing_positional(descs, 0) == descs.len(),
            first_missing_value(descs, 0) == descs.len(),
            first_req_if(descs, 0) == first_req_if(descs, j as int),
        decreases info.args@.len() - j,
    {
        let a = &info.args[j];
        if a.required_if.is_some() {
            let rif = a.required_if.as_ref().unwrap();
            if let Some(k) = find_name(&info.args, rif.as_str()) {
                if info.args[k].occurrences > 0 && a.value.len() == 0 {
                    assert(req_if_violated(descs, j as int));
                    assert(a@ == descs[j as int]);
                    return Some(Error::RequiresValueIf(info.args[k].clone(), a.clone()));
                }
            }
        }
        proof {
            if req_if_violated(descs, j as int) {
                let k = first_name_ix(descs, descs[j as int].required_if->0, 0);
                lemma_first_name_ix(descs, descs[j as int].required_if->0, 0);
            }
        }
        j += 1;
    }
    None
}

} // verus!
