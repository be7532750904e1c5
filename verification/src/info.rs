//! The Schema Registry: immutable run metadata, the normalized token
//! stream, and the bound descriptor list, built once per distinct raw
//! argument vector.

use vstd::prelude::*;

use crate::arg::{bind_result, opt_view, spec_compare_string, Arg, ArgPosition, ArgView, ValueKind};
use crate::normalize::{normalize_env_args, normalize_spec};
use crate::strutil::{lex_le, str_lex_le};

verus! {

/// Mathematical image of a registry.
pub ghost struct InfoView {
    pub name: Option<Seq<char>>,
    pub version: Option<Seq<char>>,
    pub desc: Option<Seq<char>>,
    pub doc: Option<Seq<char>>,
    pub allow_noargs: bool,
    pub env_args: Seq<Seq<char>>,
    pub args: Seq<ArgView>,
}

/// Program metadata, the normalized token stream, and the descriptors.
#[derive(Debug)]
pub struct Info {
    pub name: Option<String>,
    pub version: Option<String>,
    pub desc: Option<String>,
    pub doc: Option<String>,
    pub allow_noargs: bool,
    pub env_args: Vec<String>,
    pub args: Vec<Arg>,
}

impl View for Info {
    type V = InfoView;

    open spec fn view(&self) -> InfoView {
        InfoView {
            name: opt_view(self.name),
            version: opt_view(self.version),
            desc: opt_view(self.desc),
            doc: opt_view(self.doc),
            allow_noargs: self.allow_noargs,
            env_args: self.env_args.deep_view(),
            args: self.args.deep_view(),
        }
    }
}

/// The declared fixed and last positions of a descriptor list, in
/// declaration order; infinite slots are left out.
pub open spec fn positions_of(descs: Seq<ArgView>) -> Seq<ArgPosition>
    decreases descs.len(),
{
    if descs.len() == 0 {
        Seq::empty()
    } else {
        let rest = positions_of(descs.drop_last());
        match descs.last().position {
            Some(p) => if p is Infinite {
                rest
            } else {
                rest.push(p)
            },
            None => rest,
        }
    }
}

/// Collect every declared fixed and last position, in order.
pub fn collect_positions(args: &Vec<Arg>) -> (r: Vec<ArgPosition>)
    ensures
        r@ == positions_of(args.deep_view()),
{
    let mut r: Vec<ArgPosition> = Vec::new();
    let mut i: usize = 0;
    while i < args.len()
        invariant
            i <= args@.len(),
            r@ == positions_of(args.deep_view().subrange(0, i as int)),
        decreases args@.len() - i,
    {
        let ghost pre = args.deep_view().subrange(0, i as int);
        let ghost post = args.deep_view().subrange(0, i + 1 as int);
        proof {
            assert(post.drop_last() =~= pre);
            assert(post.last() == args.deep_view()[i as int]);
        }
        if let Some(p) = args[i].position {
            if !matches!(p, ArgPosition::Infinite) {
                r.push(p);
            }
        }
        i += 1;
    }
    proof {
        assert(args.deep_view().subrange(0, args.deep_view().len() as int) =~= args.deep_view());
    }
    r
}

/// One descriptor's sort key is at or before another's.
pub open spec fn key_le(a: ArgView, b: ArgView) -> bool {
    lex_le(spec_compare_string(a), spec_compare_string(b))
}

/// `x` inserted into `s` after every element whose key is at or
/// before `x`'s: the insertion step of a stable sort.
pub open spec fn insert_sorted(s: Seq<ArgView>, x: ArgView) -> Seq<ArgView>
    decreases s.len(),
{
    if s.len() == 0 {
        seq![x]
    } else if key_le(s.last(), x) {
        s.push(x)
    } else {
        insert_sorted(s.drop_last(), x).push(s.last())
    }
}

/// The stable sort of a descriptor list by display key.
pub open spec fn sort_args_spec(s: Seq<ArgView>) -> Seq<ArgView>
    decreases s.len(),
{
    if s.len() == 0 {
        Seq::empty()
    } else {
        insert_sorted(sort_args_spec(s.drop_last()), s.last())
    }
}

proof fn lemma_insert_sorted_at(s: Seq<ArgView>, x: ArgView, k: int)
    requires
        0 <= k <= s.len(),
        k > 0 ==> key_le(s[k - 1], x),
        forall|j: int| k <= j < s.len() ==> !key_le(#[trigger] s[j], x),
    ensures
        insert_sorted(s, x) == s.subrange(0, k).push(x) + s.subrange(k, s.len() as int),
    decreases s.len(),
{
    if s.len() == 0 {
        assert(insert_sorted(s, x) =~= s.subrange(0, k).push(x) + s.subrange(k, s.len() as int));
    } else if k == s.len() {
        assert(s.subrange(0, k) =~= s);
        assert(insert_sorted(s, x) =~= s.subrange(0, k).push(x) + s.subrange(k, s.len() as int));
    } else {
        assert(!key_le(s[s.len() - 1], x));
        lemma_insert_sorted_at(s.drop_last(), x, k);
        assert(s.drop_last().subrange(0, k) =~= s.subrange(0, k));
        assert(s.drop_last().subrange(k, s.drop_last().len() as int) =~= s.subrange(
            k,
            s.len() - 1,
        ));
        assert(insert_sorted(s, x) == insert_sorted(s.drop_last(), x).push(s.last()));
        assert(insert_sorted(s, x) =~= s.subrange(0, k).push(x) + s.subrange(k, s.len() as int));
    }
}

/// Insert a descriptor into an already sorted list, after every
/// element whose key is at or before its own.
fn insert_one(sorted: &mut Vec<Arg>, x: Arg)
    ensures
        final(sorted).deep_view() == insert_sorted(old(sorted).deep_view(), x@),
{
    let ghost s0 = sorted.deep_view();
    let mut k: usize = sorted.len();
    while k > 0 && !str_lex_le(sorted[k - 1].get_compare_string(), x.get_compare_string())
        invariant
            0 <= k <= sorted@.len(),
            sorted.deep_view() == s0,
            forall|j: int| k <= j < s0.len() ==> !key_le(#[trigger] s0[j], x@),
        decreases k,
    {
        k -= 1;
    }
    proof {
        lemma_insert_sorted_at(s0, x@, k as int);
    }
    sorted.insert(k, x);
    proof {
        assert(sorted.deep_view() =~= s0.subrange(0, k as int).push(x@) + s0.subrange(
            k as int,
            s0.len() as int,
        ));
    }
}

/// Sort the descriptor list by display key, keeping the declaration
/// order of descriptors with equal keys.
pub fn sort_args(args: Vec<Arg>) -> (r: Vec<Arg>)
    ensures
        r.deep_view() == sort_args_spec(args.deep_view()),
{
    let mut sorted: Vec<Arg> = Vec::new();
    let mut i: usize = 0;
    while i < args.len()
        invariant
            i <= args@.len(),
            sorted.deep_view() == sort_args_spec(args.deep_view().subrange(0, i as int)),
        decreases args@.len() - i,
    {
        let ghost pre = args.deep_view().subrange(0, i as int);
        let ghost post = args.deep_view().subrange(0, i + 1 as int);
        proof {
            assert(post.drop_last() =~= pre);
            assert(post.last() == args.deep_view()[i as int]);
        }
        let x = args[i].clone();
        insert_one(&mut sorted, x);
        i += 1;
    }
    proof {
        assert(args.deep_view().subrange(0, args.deep_view().len() as int) =~= args.deep_view());
    }
    sorted
}

/// The descriptor list after one full bind of every descriptor
/// against the canonical stream, in declaration order.
pub open spec fn bound_args(
    descs: Seq<ArgView>,
    norm: Seq<Seq<char>>,
    env: Seq<(Seq<char>, Seq<char>)>,
) -> Seq<ArgView> {
    Seq::new(
        descs.len(),
        |j: int| bind_result(descs[j], norm, positions_of(descs), env),
    )
}

impl Info {
    /// Build the registry: normalize the raw tokens against the
    /// descriptors, bind every descriptor once against the canonical
    /// stream, and sort the bound list by display key.
    pub fn build(
        name: Option<String>,
        version: Option<String>,
        desc: Option<String>,
        doc: Option<String>,
        allow_noargs: bool,
        env_args: Vec<String>,
        args: Vec<Arg>,
        env_vars: &Vec<(String, String)>,
    ) -> (r: Info)
        requires
            forall|j: int|
                0 <= j < args.deep_view().len() ==> (#[trigger] args.deep_view()[j]).occurrences
                    == 0,
        ensures
            r@.name == opt_view(name),
            r@.version == opt_view(version),
            r@.desc == opt_view(desc),
            r@.doc == opt_view(doc),
            r@.allow_noargs == allow_noargs,
            r@.env_args == normalize_spec(env_args.deep_view(), args.deep_view()),
            r@.args == sort_args_spec(
                bound_args(
                    args.deep_view(),
                    normalize_spec(env_args.deep_view(), args.deep_view()),
                    env_vars.deep_view(),
                ),
            ),
    {
        let ghost descs = args.deep_view();
        let ghost norm = normalize_spec(env_args.deep_view(), descs);
        let normalized = normalize_env_args(&env_args, &args);
        let positions = collect_positions(&args);
        let mut bound: Vec<Arg> = Vec::new();
        let mut j: usize = 0;
        while j < args.len()
            invariant
                j <= args@.len(),
                descs == args.deep_view(),
                norm == normalize_spec(env_args.deep_view(), descs),
                normalized.deep_view() == norm,
                positions@ == positions_of(descs),
                normalized@.len() == norm.len(),
                forall|m: int|
                    0 <= m < descs.len() ==> (#[trigger] descs[m]).occurrences == 0,
                bound.deep_view().len() == j,
                forall|m: int|
                    0 <= m < j ==> (#[trigger] bound.deep_view()[m]) == bind_result(
                        descs[m],
                        norm,
                        positions_of(descs),
                        env_vars.deep_view(),
                    ),
            decreases args@.len() - j,
        {
            let mut a = args[j].clone();
            let ghost a_start = a@;
            proof {
                broadcast use vstd::std_specs::vec::axiom_spec_len;

                assert(descs[j as int].occurrences == 0);
                assert(a_start == descs[j as int]);
                assert(normalized.len() == normalized@.len());
                assert(normalized@.len() <= usize::MAX);
            }
            a.set_value(&normalized, &positions, env_vars);
            let ghost bound_pre = bound.deep_view();
            bound.push(a);
            proof {
                assert(bound.deep_view() =~= bound_pre.push(
                    bind_result(descs[j as int], norm, positions_of(descs), env_vars.deep_view()),
                ));
            }
            j += 1;
        }
        assert(bound.deep_view() =~= bound_args(descs, norm, env_vars.deep_view()));
        let sorted = sort_args(bound);
        Info {
            name,
            version,
            desc,
            doc,
            allow_noargs,
            env_args: normalized,
            args: sorted,
        }
    }
}

/// The descriptors with a declared position, in order.
pub open spec fn positional_views(s: Seq<ArgView>) -> Seq<ArgView>
    decreases s.len(),
{
    if s.len() == 0 {
        Seq::empty()
    } else {
        let rest = positional_views(s.drop_last());
        if s.last().position is Some {
            rest.push(s.last())
        } else {
            rest
        }
    }
}

/// The flag descriptors: no value, and a short or long form.
pub open spec fn flag_views(s: Seq<ArgView>) -> Seq<ArgView>
    decreases s.len(),
{
    if s.len() == 0 {
        Seq::empty()
    } else {
        let rest = flag_views(s.drop_last());
        if s.last().value_type == ValueKind::NoValue && (s.last().long is Some || s.last().short
            is Some) {
            rest.push(s.last())
        } else {
            rest
        }
    }
}

/// The option descriptors: a value, and a short or long form.
pub open spec fn option_views(s: Seq<ArgView>) -> Seq<ArgView>
    decreases s.len(),
{
    if s.len() == 0 {
        Seq::empty()
    } else {
        let rest = option_views(s.drop_last());
        if s.last().value_type != ValueKind::NoValue && (s.last().long is Some || s.last().short
            is Some) {
            rest.push(s.last())
        } else {
            rest
        }
    }
}

impl Info {
    /// The descriptors with a declared position, in order.
    pub fn get_positional_args<'a>(&'a self) -> (r: Vec<&'a Arg>)
        ensures
            r.deep_view() == positional_views(self@.args),
    {
        let mut r: Vec<&Arg> = Vec::new();
        let mut i: usize = 0;
        while i < self.args.len()
            invariant
                i <= self.args@.len(),
                r.deep_view() == positional_views(self.args.deep_view().subrange(0, i as int)),
            decreases self.args@.len() - i,
        {
            let ghost pre = self.args.deep_view().subrange(0, i as int);
            let ghost post = self.args.deep_view().subrange(0, i + 1 as int);
            proof {
                assert(post.drop_last() =~= pre);
                assert(post.last() == self.args.deep_view()[i as int]);
            }
            if self.args[i].position.is_some() {
                r.push(&self.args[i]);
                assert(r.deep_view() =~= positional_views(post));
            }
            i += 1;
        }
        proof {
            assert(self.args.deep_view().subrange(0, self.args.deep_view().len() as int)
                =~= self.args.deep_view());
        }
        r
    }

    /// The flag descriptors: no value, and a short or long form.
    pub fn get_flags<'a>(&'a self) -> (r: Vec<&'a Arg>)
        ensures
            r.deep_view() == flag_views(self@.args),
    {
        let mut r: Vec<&Arg> = Vec::new();
        let mut i: usize = 0;
        while i < self.args.len()
            invariant
                i <= self.args@.len(),
                r.deep_view() == flag_views(self.args.deep_view().subrange(0, i as int)),
            decreases self.args@.len() - i,
        {
            let ghost pre = self.args.deep_view().subrange(0, i as int);
            let ghost post = self.args.deep_view().subrange(0, i + 1 as int);
            proof {
                assert(post.drop_last() =~= pre);
                assert(post.last() == self.args.deep_view()[i as int]);
            }
            let a = &self.args[i];
            if matches!(a.value_type, ValueKind::NoValue) && (a.long.is_some() || a.short.is_some())
             {
                r.push(a);
                assert(r.deep_view() =~= flag_views(post));
            }
            i += 1;
        }
        proof {
            assert(self.args.deep_view().subrange(0, self.args.deep_view().len() as int)
                =~= self.args.deep_view());
        }
        r
    }

    /// The option descriptors: a value, and a short or long form.
    pub fn get_options<'a>(&'a self) -> (r: Vec<&'a Arg>)
        ensures
            r.deep_view() == option_views(self@.args),
    {
        let mut r: Vec<&Arg> = Vec::new();
        let mut i: usize = 0;
        while i < self.args.len()
            invariant
                i <= self.args@.len(),
                r.deep_view() == option_views(self.args.deep_view().subrange(0, i as int)),
            decreases self.args@.len() - i,
        {
            let ghost pre = self.args.deep_view().subrange(0, i as int);
            let ghost post = self.args.deep_view().subrange(0, i + 1 as int);
            proof {
                assert(post.drop_last() =~= pre);
                assert(post.last() == self.args.deep_view()[i as int]);
            }
            let a = &self.args[i];
            if !matches!(a.value_type, ValueKind::NoValue) && (a.long.is_some()
                || a.short.is_some()) {
                r.push(a);
                assert(r.deep_view() =~= option_views(post));
            }
            i += 1;
        }
        proof {
            assert(self.args.deep_view().subrange(0, self.args.deep_view().len() as int)
                =~= self.args.deep_view());
        }
        r
    }
}

} // verus!
