//! Argument descriptors: one declared flag, option or positional
//! argument, together with its per-run binding state.

use vstd::prelude::*;

use crate::strutil::{
    concat2, dec_str, find_char_from, is_prefix, lemma_find_char_from, lower_of, split_once_char,
    str_contains_char, str_eq, str_starts_with, str_to_lowercase, usize_to_string,
};

verus! {

/// How a descriptor consumes values.
#[derive(Debug, Clone, Copy, PartialEq, Eq, Structural)]
pub enum ValueKind {
    /// A flag: no value, a synthesized `"true"` per bare occurrence.
    NoValue,
    /// An option holding exactly one value.
    Single,
    /// A repeatable, comma-splittable option holding many values.
    Multi,
    /// An option whose value may be absent.
    Optional,
    /// A flag whose value is its own occurrence count.
    Counter,
}

/// Where a positional descriptor binds.
#[derive(Debug, Clone, Copy, PartialEq, Eq, Structural)]
pub enum ArgPosition {
    /// The n-th positional token, counting from 1.
    Fixed(usize),
    /// Absorbs every unclaimed positional token.
    Infinite,
    /// Binds only the final token of the stream.
    Last,
}

/// Mathematical image of a descriptor: every string as a `Seq<char>`.
pub ghost struct ArgView {
    pub name: Seq<char>,
    pub vname: Option<Seq<char>>,
    pub value_type: ValueKind,
    pub position: Option<ArgPosition>,
    pub doc: Option<Seq<char>>,
    pub short: Option<Seq<char>>,
    pub long: Option<Seq<char>>,
    pub aliases: Seq<Seq<char>>,
    pub has_exit: bool,
    pub env: Option<Seq<char>>,
    pub env_prefix: Option<Seq<char>>,
    pub required_if: Option<Seq<char>>,
    pub default: Seq<char>,
    pub value: Seq<Seq<char>>,
    pub occurrences: int,
}

pub open spec fn opt_view(o: Option<String>) -> Option<Seq<char>> {
    match o {
        Some(s) => Some(s@),
        None => None,
    }
}

/// One declared argument and its mutable binding state.
#[derive(Debug, PartialEq)]
pub struct Arg {
    pub name: String,
    pub vname: Option<String>,
    pub value_type: ValueKind,
    pub position: Option<ArgPosition>,
    pub doc: Option<String>,
    pub short: Option<String>,
    pub long: Option<String>,
    pub aliases: Vec<String>,
    pub has_exit: bool,
    pub env: Option<String>,
    pub env_prefix: Option<String>,
    pub required_if: Option<String>,
    pub default: String,
    pub value: Vec<String>,
    pub occurrences: usize,
}

impl View for Arg {
    type V = ArgView;

    open spec fn view(&self) -> ArgView {
        ArgView {
            name: self.name@,
            vname: opt_view(self.vname),
            value_type: self.value_type,
            position: self.position,
            doc: opt_view(self.doc),
            short: opt_view(self.short),
            long: opt_view(self.long),
            aliases: self.aliases.deep_view(),
            has_exit: self.has_exit,
            env: opt_view(self.env),
            env_prefix: opt_view(self.env_prefix),
            required_if: opt_view(self.required_if),
            default: self.default@,
            value: self.value.deep_view(),
            occurrences: self.occurrences as int,
        }
    }
}

impl DeepView for Arg {
    type V = ArgView;

    open spec fn deep_view(&self) -> ArgView {
        self.view()
    }
}

/// The descriptor every field of which is empty: no display names, a
/// single-value kind, no position, no default.
pub open spec fn default_arg_view() -> ArgView {
    ArgView {
        name: Seq::empty(),
        vname: None,
        value_type: ValueKind::Single,
        position: None,
        doc: None,
        short: None,
        long: None,
        aliases: Seq::empty(),
        has_exit: false,
        env: None,
        env_prefix: None,
        required_if: None,
        default: Seq::empty(),
        value: Seq::empty(),
        occurrences: 0,
    }
}

impl Default for Arg {
    fn default() -> (r: Arg)
        ensures
            r@ == default_arg_view(),
    {
        let r = Arg {
            name: String::new(),
            vname: None,
            value_type: ValueKind::Single,
            position: None,
            doc: None,
            short: None,
            long: None,
            aliases: Vec::new(),
            has_exit: false,
            env: None,
            env_prefix: None,
            required_if: None,
            default: String::new(),
            value: Vec::new(),
            occurrences: 0,
        };
        assert(r.aliases.deep_view() =~= Seq::<Seq<char>>::empty());
        assert(r.value.deep_view() =~= Seq::<Seq<char>>::empty());
        r
    }
}

fn clone_opt_string(o: &Option<String>) -> (r: Option<String>)
    ensures
        opt_view(r) == opt_view(*o),
{
    match o {
        Some(s) => Some(s.clone()),
        None => None,
    }
}

fn clone_string_vec(v: &Vec<String>) -> (r: Vec<String>)
    ensures
        r.deep_view() == v.deep_view(),
        r@ == v@,
{
    let r = v.clone();
    assert forall|i: int| 0 <= i < v@.len() implies r@[i] == v@[i] by {
        assert(vstd::pervasive::cloned::<String>(v@[i], r@[i]));
    }
    assert(r@ =~= v@);
    assert(r.deep_view() =~= v.deep_view());
    r
}

impl Clone for Arg {
    fn clone(&self) -> (r: Self)
        ensures
            r@ == self@,
    {
        let r = Arg {
            name: self.name.clone(),
            vname: clone_opt_string(&self.vname),
            value_type: self.value_type,
            position: self.position,
            doc: clone_opt_string(&self.doc),
            short: clone_opt_string(&self.short),
            long: clone_opt_string(&self.long),
            aliases: clone_string_vec(&self.aliases),
            has_exit: self.has_exit,
            env: clone_opt_string(&self.env),
            env_prefix: clone_opt_string(&self.env_prefix),
            required_if: clone_opt_string(&self.required_if),
            default: self.default.clone(),
            value: clone_string_vec(&self.value),
            occurrences: self.occurrences,
        };
        r
    }
}

/// Whether the token `v` is an occurrence of the descriptor `a`: a
/// long-style token is matched against the long form and the long
/// aliases by prefix, a short-style token against the short form and
/// the short aliases by prefix.
pub open spec fn spec_matches(a: ArgView, v: Seq<char>) -> bool {
    if v.len() == 0 || v[0] != '-' {
        false
    } else if v.len() >= 2 && v[1] == '-' && a.long is Some {
        (exists|i: int|
            0 <= i < a.aliases.len() && (#[trigger] a.aliases[i]).len() > 1 && is_prefix(
                seq!['-', '-'] + a.aliases[i],
                v,
            )) || is_prefix(seq!['-', '-'] + a.long->0, v)
    } else if a.short is Some {
        (exists|i: int|
            0 <= i < a.aliases.len() && (#[trigger] a.aliases[i]).len() == 1 && is_prefix(
                seq!['-'] + a.aliases[i],
                v,
            )) || is_prefix(seq!['-'] + a.short->0, v)
    } else {
        false
    }
}

impl Arg {
    /// Whether `value` is an occurrence of this descriptor.
    pub fn partial_eq_string(&self, value: &str) -> (r: bool)
        ensures
            r == spec_matches(self@, value@),
    {
        proof {
            reveal_strlit("-");
            reveal_strlit("--");
        }
        if !str_starts_with(value, "-") {
            assert(!(value@.len() > 0 && value@[0] == '-')) by {
                if value@.len() > 0 && value@[0] == '-' {
                    assert(value@.subrange(0, 1) =~= "-"@);
                }
            }
            return false;
        }
        assert(value@.len() >= 1 && value@[0] == '-') by {
            assert(value@.subrange(0, 1)[0] == value@[0]);
        }
        let is_long = str_starts_with(value, "--");
        proof {
            if value@.len() >= 2 && value@[1] == '-' {
                assert(value@.subrange(0, 2) =~= "--"@);
            }
            if is_prefix("--"@, value@) {
                assert(value@[1] == value@.subrange(0, 2)[1]);
            }
        }
        if is_long && self.long.is_some() {
            let mut i: usize = 0;
            while i < self.aliases.len()
                invariant
                    i <= self.aliases@.len(),
                    value@.len() >= 2 && value@[0] == '-' && value@[1] == '-',
                    self@.long is Some,
                    forall|j: int|
                        0 <= j < i ==> !((#[trigger] self.aliases.deep_view()[j]).len() > 1
                            && is_prefix(seq!['-', '-'] + self.aliases.deep_view()[j], value@)),
                decreases self.aliases@.len() - i,
            {
                let al = &self.aliases[i];
                if al.unicode_len() > 1 {
                    let p = concat2("--", al.as_str());
                    proof {
                        reveal_strlit("--");
                        assert("--"@ =~= seq!['-', '-']);
                        assert(al@ == self.aliases.deep_view()[i as int]);
                        assert(p@ =~= seq!['-', '-'] + self.aliases.deep_view()[i as int]);
                    }
                    if str_starts_with(value, p.as_str()) {
                        proof {
                            let wi = i as int;
                            assert(self@.aliases[wi].len() > 1 && is_prefix(
                                seq!['-', '-'] + self@.aliases[wi],
                                value@,
                            ));
                        }
                        return true;
                    }
                }
                i += 1;
            }
            let lp = concat2("--", self.long.as_ref().unwrap().as_str());
            assert(lp@ =~= seq!['-', '-'] + self@.long->0);
            return str_starts_with(value, lp.as_str());
        }
        if self.short.is_some() {
            let mut i: usize = 0;
            while i < self.aliases.len()
                invariant
                    i <= self.aliases@.len(),
                    value@.len() >= 1 && value@[0] == '-',
                    !(value@.len() >= 2 && value@[1] == '-' && self@.long is Some),
                    self@.short is Some,
                    forall|j: int|
                        0 <= j < i ==> !((#[trigger] self.aliases.deep_view()[j]).len() == 1
                            && is_prefix(seq!['-'] + self.aliases.deep_view()[j], value@)),
                decreases self.aliases@.len() - i,
            {
                let al = &self.aliases[i];
                if al.unicode_len() == 1 {
                    let p = concat2("-", al.as_str());
                    proof {
                        reveal_strlit("-");
                        assert("-"@ =~= seq!['-']);
                        assert(al@ == self.aliases.deep_view()[i as int]);
                        assert(p@ =~= seq!['-'] + self.aliases.deep_view()[i as int]);
                    }
                    if str_starts_with(value, p.as_str()) {
                        proof {
                            let wi = i as int;
                            assert(self@.aliases[wi].len() == 1 && is_prefix(
                                seq!['-'] + self@.aliases[wi],
                                value@,
                            ));
                        }
                        return true;
                    }
                }
                i += 1;
            }
            let sp = concat2("-", self.short.as_ref().unwrap().as_str());
            assert(sp@ =~= seq!['-'] + self@.short->0);
            return str_starts_with(value, sp.as_str());
        }
        false
    }

    /// A value must be supplied: there is no fallback and the
    /// descriptor is not a bare flag.
    pub fn is_value_required(&self) -> (r: bool)
        ensures
            r == (self@.default.len() == 0 && self@.value_type != ValueKind::NoValue),
    {
        self.default.as_str().is_empty() && !matches!(self.value_type, ValueKind::NoValue)
    }

    /// The descriptor accepts repeated, comma-splittable values.
    pub fn is_value_multiple(&self) -> (r: bool)
        ensures
            r == (self@.value_type == ValueKind::Multi),
    {
        matches!(self.value_type, ValueKind::Multi)
    }

    /// The descriptor is a bare flag and takes no value.
    pub fn is_value_none(&self) -> (r: bool)
        ensures
            r == (self@.value_type == ValueKind::NoValue),
    {
        matches!(self.value_type, ValueKind::NoValue)
    }

    /// The key the descriptors are ordered by on the usage screen: the
    /// long form, else the short form, else a placeholder.
    pub fn get_compare_string(&self) -> (r: &str)
        ensures
            r@ == spec_compare_string(self@),
    {
        proof {
            reveal_strlit("0");
        }
        if let Some(long) = &self.long {
            long.as_str()
        } else if let Some(short) = &self.short {
            short.as_str()
        } else {
            "0"
        }
    }
}

/// The sort key of a descriptor: long form, else short form, else `"0"`.
pub open spec fn spec_compare_string(a: ArgView) -> Seq<char> {
    if a.long is Some {
        a.long->0
    } else if a.short is Some {
        a.short->0
    } else {
        seq!['0']
    }
}

/// Matching looks only at the display names, never at the binding state.
pub proof fn lemma_matches_names_only(a: ArgView, b: ArgView, v: Seq<char>)
    requires
        a.long == b.long,
        a.short == b.short,
        a.aliases == b.aliases,
    ensures
        spec_matches(a, v) == spec_matches(b, v),
{
    if spec_matches(a, v) && !spec_matches(b, v) {
        if v.len() >= 2 && v[1] == '-' && a.long is Some {
            if exists|i: int|
                0 <= i < a.aliases.len() && (#[trigger] a.aliases[i]).len() > 1 && is_prefix(
                    seq!['-', '-'] + a.aliases[i],
                    v,
                ) {
                let i = choose|i: int|
                    0 <= i < a.aliases.len() && (#[trigger] a.aliases[i]).len() > 1 && is_prefix(
                        seq!['-', '-'] + a.aliases[i],
                        v,
                    );
                assert(b.aliases[i].len() > 1 && is_prefix(seq!['-', '-'] + b.aliases[i], v));
            }
        } else if a.short is Some {
            if exists|i: int|
                0 <= i < a.aliases.len() && (#[trigger] a.aliases[i]).len() == 1 && is_prefix(
                    seq!['-'] + a.aliases[i],
                    v,
                ) {
                let i = choose|i: int|
                    0 <= i < a.aliases.len() && (#[trigger] a.aliases[i]).len() == 1 && is_prefix(
                        seq!['-'] + a.aliases[i],
                        v,
                    );
                assert(b.aliases[i].len() == 1 && is_prefix(seq!['-'] + b.aliases[i], v));
            }
        }
    }
    if spec_matches(b, v) && !spec_matches(a, v) {
        if v.len() >= 2 && v[1] == '-' && b.long is Some {
            if exists|i: int|
                0 <= i < b.aliases.len() && (#[trigger] b.aliases[i]).len() > 1 && is_prefix(
                    seq!['-', '-'] + b.aliases[i],
                    v,
                ) {
                let i = choose|i: int|
                    0 <= i < b.aliases.len() && (#[trigger] b.aliases[i]).len() > 1 && is_prefix(
                        seq!['-', '-'] + b.aliases[i],
                        v,
                    );
                assert(a.aliases[i].len() > 1 && is_prefix(seq!['-', '-'] + a.aliases[i], v));
            }
        } else if b.short is Some {
            if exists|i: int|
                0 <= i < b.aliases.len() && (#[trigger] b.aliases[i]).len() == 1 && is_prefix(
                    seq!['-'] + b.aliases[i],
                    v,
                ) {
                let i = choose|i: int|
                    0 <= i < b.aliases.len() && (#[trigger] b.aliases[i]).len() == 1 && is_prefix(
                        seq!['-'] + b.aliases[i],
                        v,
                    );
                assert(a.aliases[i].len() == 1 && is_prefix(seq!['-'] + a.aliases[i], v));
            }
        }
    }
}

/// The end-of-options marker.
pub open spec fn ddash() -> Seq<char> {
    seq!['-', '-']
}

/// The literal a bare flag occurrence binds.
pub open spec fn true_lit() -> Seq<char> {
    seq!['t', 'r', 'u', 'e']
}

pub open spec fn pos_eq_fixed(p: ArgPosition, k: int) -> bool {
    match p {
        ArgPosition::Fixed(m) => m as int == k,
        _ => false,
    }
}

/// Some declared position is `Fixed(k)`.
pub open spec fn has_fixed(ps: Seq<ArgPosition>, k: int) -> bool {
    exists|j: int| 0 <= j < ps.len() && pos_eq_fixed(#[trigger] ps[j], k)
}

/// Some declared position is `Last`.
pub open spec fn has_last(ps: Seq<ArgPosition>) -> bool {
    exists|j: int| 0 <= j < ps.len() && (#[trigger] ps[j]) is Last
}

/// Everything after the first `=` of a token.
pub open spec fn after_eq(t: Seq<char>) -> Seq<char> {
    t.subrange(find_char_from(t, '=', 0) + 1, t.len() as int)
}

/// The running state of one descriptor's scan over the canonical
/// stream: positional counter, end-of-options flag, and the binding
/// accumulated so far.
pub ghost struct BindState {
    pub pos: int,
    pub options_ended: bool,
    pub value: Seq<Seq<char>>,
    pub occurrences: int,
}

/// One scan step of the Value Binder for descriptor `a`: token `t` at
/// index `i` of a stream of length `n`, with `positions` the declared
/// fixed and last positions of the whole registry. Once the
/// end-of-options marker has been seen, nothing matches as a flag any
/// more: every later token is a positional candidate. A bare flag
/// occurrence synthesizes at most one `"true"` entry, however often
/// the flag occurs.
pub open spec fn bind_step(
    a: ArgView,
    positions: Seq<ArgPosition>,
    n: int,
    i: int,
    t: Seq<char>,
    st: BindState,
) -> BindState {
    if !st.options_ended && t == ddash() {
        BindState { options_ended: true, ..st }
    } else if !st.options_ended && spec_matches(a, t) {
        if t.contains('=') {
            BindState {
                occurrences: st.occurrences + 1,
                value: st.value.push(after_eq(t)),
                ..st
            }
        } else if a.value_type == ValueKind::Counter && a.long is None && a.short is Some {
            BindState {
                occurrences: st.occurrences + 1,
                value: seq![dec_str(st.occurrences + 1)],
                ..st
            }
        } else if a.value_type == ValueKind::NoValue {
            if st.value.contains(true_lit()) {
                BindState { occurrences: st.occurrences + 1, ..st }
            } else {
                BindState {
                    occurrences: st.occurrences + 1,
                    value: st.value.push(true_lit()),
                    ..st
                }
            }
        } else {
            BindState { occurrences: st.occurrences + 1, ..st }
        }
    } else if st.options_ended || t.len() == 0 || t[0] != '-' || t.len() == 1 {
        match a.position {
            Some(p) => {
                let claimed = match p {
                    ArgPosition::Fixed(k) => k as int == st.pos,
                    ArgPosition::Infinite => !(has_fixed(positions, st.pos) || (has_last(positions)
                        && i + 1 == n)),
                    ArgPosition::Last => i + 1 == n,
                };
                if claimed {
                    BindState {
                        pos: st.pos + 1,
                        occurrences: st.occurrences + 1,
                        value: st.value.push(t),
                        ..st
                    }
                } else {
                    BindState { pos: st.pos + 1, ..st }
                }
            },
            None => st,
        }
    } else {
        st
    }
}

/// State of the scan after the first `i` tokens.
pub open spec fn bind_fold(
    a: ArgView,
    positions: Seq<ArgPosition>,
    n: int,
    args: Seq<Seq<char>>,
    i: int,
) -> BindState
    decreases i,
{
    if i <= 0 {
        BindState { pos: 1, options_ended: false, value: a.value, occurrences: a.occurrences }
    } else {
        bind_step(
            a,
            positions,
            n,
            i - 1,
            args[i - 1],
            bind_fold(a, positions, n, args, i - 1),
        )
    }
}

/// The environment variable name a descriptor falls back to: the
/// explicit name, else the prefix joined with the descriptor name,
/// else the descriptor name itself.
pub open spec fn env_key(a: ArgView) -> Seq<char> {
    if a.env is Some {
        a.env->0
    } else if a.env_prefix is Some {
        a.env_prefix->0 + a.name
    } else {
        a.name
    }
}

/// First index at or after `from` whose key equals `key` after case
/// folding; `env.len()` if there is none.
pub open spec fn env_first_ix(
    env: Seq<(Seq<char>, Seq<char>)>,
    key: Seq<char>,
    from: int,
) -> int
    decreases env.len() - from,
{
    if from < 0 || from >= env.len() {
        env.len() as int
    } else if lower_of(env[from].0) == lower_of(key) {
        from
    } else {
        env_first_ix(env, key, from + 1)
    }
}

pub proof fn lemma_env_first_ix(env: Seq<(Seq<char>, Seq<char>)>, key: Seq<char>, from: int)
    requires
        0 <= from <= env.len(),
    ensures
        from <= env_first_ix(env, key, from) <= env.len(),
        env_first_ix(env, key, from) < env.len() ==> lower_of(
            env[env_first_ix(env, key, from)].0,
        ) == lower_of(key),
        forall|j: int|
            from <= j < env_first_ix(env, key, from) ==> lower_of(#[trigger] env[j].0) != lower_of(
                key,
            ),
    decreases env.len() - from,
{
    if from < env.len() && lower_of(env[from].0) != lower_of(key) {
        lemma_env_first_ix(env, key, from + 1);
    }
}

/// What the scan's values become after the fallbacks: a non-empty
/// scan stands; else a non-empty default; else the value of the first
/// case-insensitive environment match; else nothing.
pub open spec fn fallback_values(
    a: ArgView,
    scanned: Seq<Seq<char>>,
    env: Seq<(Seq<char>, Seq<char>)>,
) -> Seq<Seq<char>> {
    if scanned.len() > 0 {
        scanned
    } else if a.default.len() > 0 {
        seq![a.default]
    } else {
        let ix = env_first_ix(env, env_key(a), 0);
        if ix < env.len() {
            seq![env[ix].1]
        } else {
            scanned
        }
    }
}

/// A descriptor equal to `a` except for its binding state.
pub open spec fn with_binding(a: ArgView, value: Seq<Seq<char>>, occurrences: int) -> ArgView {
    ArgView { value: value, occurrences: occurrences, ..a }
}

/// The descriptor after one full bind: the stream scanned once, then
/// the default and environment fallbacks applied.
pub open spec fn bind_result(
    a: ArgView,
    args: Seq<Seq<char>>,
    positions: Seq<ArgPosition>,
    env: Seq<(Seq<char>, Seq<char>)>,
) -> ArgView {
    let st = bind_fold(a, positions, args.len() as int, args, args.len() as int);
    with_binding(a, fallback_values(a, st.value, env), st.occurrences)
}

/// Whether `k` is among the declared fixed positions.
pub fn contains_fixed(positions: &Vec<ArgPosition>, k: u128) -> (r: bool)
    ensures
        r == has_fixed(positions@, k as int),
{
    let mut j: usize = 0;
    while j < positions.len()
        invariant
            j <= positions@.len(),
            forall|m: int| 0 <= m < j ==> !pos_eq_fixed(#[trigger] positions@[m], k as int),
        decreases positions@.len() - j,
    {
        if let ArgPosition::Fixed(m) = positions[j] {
            if (m as u128) == k {
                assert(pos_eq_fixed(positions@[j as int], k as int));
                return true;
            }
        }
        j += 1;
    }
    false
}

/// Whether a last-anchored position is declared.
pub fn contains_last(positions: &Vec<ArgPosition>) -> (r: bool)
    ensures
        r == has_last(positions@),
{
    let mut j: usize = 0;
    while j < positions.len()
        invariant
            j <= positions@.len(),
            forall|m: int| 0 <= m < j ==> !((#[trigger] positions@[m]) is Last),
        decreases positions@.len() - j,
    {
        if matches!(positions[j], ArgPosition::Last) {
            return true;
        }
        j += 1;
    }
    false
}

/// Whether some element of `v` holds exactly the characters of `s`.
fn vec_contains_str(v: &Vec<String>, s: &str) -> (r: bool)
    ensures
        r == v.deep_view().contains(s@),
{
    let mut i: usize = 0;
    while i < v.len()
        invariant
            i <= v@.len(),
            forall|j: int| 0 <= j < i ==> v.deep_view()[j] != s@,
        decreases v@.len() - i,
    {
        if str_eq(v[i].as_str(), s) {
            assert(v.deep_view()[i as int] == s@);
            return true;
        }
        assert(v.deep_view()[i as int] != s@);
        i += 1;
    }
    proof {
        if v.deep_view().contains(s@) {
            let w = choose|j: int| 0 <= j < v.deep_view().len() && v.deep_view()[j] == s@;
            assert(v.deep_view()[w] != s@);
        }
    }
    false
}

impl Arg {
    /// Scan the canonical stream once and bind this descriptor:
    /// matching tokens count occurrences and carry values, positional
    /// tokens fill the descriptor's declared slot — every token after
    /// the end-of-options marker counts as positional — and when
    /// nothing bound, the default and then the environment table are
    /// consulted.
    pub fn set_value(
        &mut self,
        args: &Vec<String>,
        positions: &Vec<ArgPosition>,
        env_vars: &Vec<(String, String)>,
    )
        requires
            old(self).occurrences + args@.len() <= usize::MAX,
        ensures
            final(self)@ == bind_result(
                old(self)@,
                args.deep_view(),
                positions@,
                env_vars.deep_view(),
            ),
    {
        let ghost a0 = self@;
        let ghost toks = args.deep_view();
        let ghost n = toks.len() as int;
        let mut pos: u128 = 1;
        let mut options_ended = false;
        let mut i: usize = 0;
        while i < args.len()
            invariant
                i <= args@.len(),
                args@.len() == toks.len(),
                toks == args.deep_view(),
                n == toks.len() as int,
                self.occurrences + (args@.len() - i) <= usize::MAX,
                pos <= i + 1,
                self@ == with_binding(a0, self.value.deep_view(), self.occurrences as int),
                ({
                    let st = bind_fold(a0, positions@, n, toks, i as int);
                    st.pos == pos as int && st.options_ended == options_ended && st.value
                        == self.value.deep_view() && st.occurrences == self.occurrences as int
                }),
            decreases args@.len() - i,
        {
            let ghost st_pre = bind_fold(a0, positions@, n, toks, i as int);
            let ghost st_post = bind_fold(a0, positions@, n, toks, i + 1 as int);
            proof {
                assert(st_post == bind_step(a0, positions@, n, i as int, toks[i as int], st_pre));
            }
            let t: &String = &args[i];
            proof {
                assert(t@ == toks[i as int]);
                reveal_strlit("--");
                assert("--"@ =~= ddash());
            }
            let is_marker = !options_ended && str_eq(t.as_str(), "--");
            if is_marker {
                options_ended = true;
            } else {
                proof {
                    lemma_matches_names_only(self@, a0, t@);
                }
                if !options_ended && self.partial_eq_string(t.as_str()) {
                    if str_contains_char(t.as_str(), '=') {
                        proof {
                            lemma_find_char_from(t@, '=', 0);
                            let w = choose|j: int| 0 <= j < t@.len() && t@[j] == '=';
                            if find_char_from(t@, '=', 0) >= t@.len() {
                                assert(t@[w] != '=');
                            }
                        }
                        let parts = split_once_char(t.as_str(), '=');
                        self.occurrences += 1;
                        self.value.push(parts.1);
                        assert(self.value.deep_view() =~= st_post.value);
                    } else {
                        self.occurrences += 1;
                        let counting = matches!(self.value_type, ValueKind::Counter)
                            && self.long.is_none() && self.short.is_some();
                        if counting {
                            let mut v: Vec<String> = Vec::new();
                            v.push(usize_to_string(self.occurrences));
                            self.value = v;
                            assert(self.value.deep_view() =~= st_post.value);
                        } else if matches!(self.value_type, ValueKind::NoValue) {
                            let t_lit: String = "true".to_owned();
                            proof {
                                reveal_strlit("true");
                                assert(t_lit@ =~= true_lit());
                            }
                            if !vec_contains_str(&self.value, t_lit.as_str()) {
                                self.value.push(t_lit);
                            }
                            assert(self.value.deep_view() =~= st_post.value);
                        }
                    }
                } else {
                    let tlen = t.as_str().unicode_len();
                    let starts_dash = tlen >= 1 && t.as_str().get_char(0) == '-';
                    if options_ended || !starts_dash || tlen == 1 {
                        if let Some(p) = self.position {
                            let claimed = match p {
                                ArgPosition::Fixed(k) => (k as u128) == pos,
                                ArgPosition::Infinite => !(contains_fixed(positions, pos) || (
                                contains_last(positions) && i + 1 == args.len())),
                                ArgPosition::Last => i + 1 == args.len(),
                            };
                            if claimed {
                                self.occurrences += 1;
                                self.value.push(t.clone());
                                pos += 1;
                                assert(self.value.deep_view() =~= st_post.value);
                            } else {
                                pos += 1;
                            }
                        }
                    }
                }
            }
            i += 1;
        }
        let ghost st_end = bind_fold(a0, positions@, n, toks, n);
        assert(st_end == bind_fold(a0, positions@, n, toks, i as int));
        if self.value.len() == 0 {
            if !self.default.as_str().is_empty() {
                let d = self.default.clone();
                self.value.push(d);
                assert(self.value.deep_view() =~= seq![a0.default]);
            } else {
                let env_name: String = if self.env.is_some() {
                    self.env.as_ref().unwrap().clone()
                } else if self.env_prefix.is_some() {
                    concat2(self.env_prefix.as_ref().unwrap().as_str(), self.name.as_str())
                } else {
                    self.name.clone()
                };
                assert(env_name@ == env_key(a0));
                let target = str_to_lowercase(env_name.as_str());
                let ghost env = env_vars.deep_view();
                let mut k: usize = 0;
                let mut found = false;
                while k < env_vars.len() && !found
                    invariant
                        k <= env_vars@.len(),
                        env == env_vars.deep_view(),
                        target@ == lower_of(env_key(a0)),
                        self@ == with_binding(a0, self.value.deep_view(), st_end.occurrences),
                        forall|j: int|
                            0 <= j < k ==> lower_of(#[trigger] env[j].0) != lower_of(env_key(a0)),
                        st_end.value.len() == 0,
                        !found ==> self.value.deep_view() == st_end.value,
                        found ==> k < env_vars@.len() && lower_of(env[k as int].0) == lower_of(
                            env_key(a0),
                        ) && self.value.deep_view() == seq![env[k as int].1],
                    decreases env_vars@.len() - k + (if found { 0int } else { 1int }),
                {
                    let pair = &env_vars[k];
                    let kl = str_to_lowercase(pair.0.as_str());
                    if str_eq(kl.as_str(), target.as_str()) {
                        let v = pair.1.clone();
                        self.value.push(v);
                        assert(self.value.deep_view() =~= seq![env[k as int].1]);
                        found = true;
                    } else {
                        k += 1;
                    }
                }
                proof {
                    lemma_env_first_ix(env, env_key(a0), 0);
                    if found {
                        let ix = env_first_ix(env, env_key(a0), 0);
                        assert(ix <= k);
                        if ix < k {
                            assert(lower_of(env[ix].0) != lower_of(env_key(a0)));
                        }
                        assert(ix == k);
                    } else {
                        if env_first_ix(env, env_key(a0), 0) < env.len() {
                            assert(lower_of(env[env_first_ix(env, env_key(a0), 0)].0) == lower_of(
                                env_key(a0),
                            ));
                        }
                    }
                }
            }
        }
        assert(final(self)@.value == fallback_values(a0, st_end.value, env_vars.deep_view()));
    }
}

} // verus!
