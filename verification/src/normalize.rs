//! The Token Normalizer: rewrites a raw token stream into a canonical
//! stream in which every flag or option occurrence is self-contained,
//! of the form `-x`, `--name`, `-x=value` or `--name=value`.

use vstd::prelude::*;

use crate::arg::{ddash, spec_matches, Arg, ArgView, ValueKind};
use crate::strutil::{
    concat3, find_char_from, is_isize_str, lemma_find_char_from, spec_is_isize, split_char,
    str_contains_char, str_eq, str_split_char,
};

verus! {

/// The running state of the normalizer: tokens already emitted, a
/// flag still waiting for its value, and whether the end-of-options
/// marker has been seen.
pub ghost struct NormState {
    pub out: Seq<Seq<char>>,
    pub pending: Seq<char>,
    pub options_ended: bool,
}

/// Index of the first descriptor the token is an occurrence of,
/// counting from `from`; `descs.len()` if there is none.
pub open spec fn first_match_ix(descs: Seq<ArgView>, t: Seq<char>, from: int) -> int
    decreases descs.len() - from,
{
    if from < 0 || from >= descs.len() {
        descs.len() as int
    } else if spec_matches(descs[from], t) {
        from
    } else {
        first_match_ix(descs, t, from + 1)
    }
}

pub proof fn lemma_first_match_ix(descs: Seq<ArgView>, t: Seq<char>, from: int)
    requires
        0 <= from <= descs.len(),
    ensures
        from <= first_match_ix(descs, t, from) <= descs.len(),
        first_match_ix(descs, t, from) < descs.len() ==> spec_matches(
            descs[first_match_ix(descs, t, from)],
            t,
        ),
        forall|j: int|
            from <= j < first_match_ix(descs, t, from) ==> !spec_matches(#[trigger] descs[j], t),
    decreases descs.len() - from,
{
    if from < descs.len() && !spec_matches(descs[from], t) {
        lemma_first_match_ix(descs, t, from + 1);
    }
}

/// First descriptor matching `t`, if any.
pub fn find_match(descs: &Vec<Arg>, t: &str) -> (r: Option<usize>)
    ensures
        ({
            let ix = first_match_ix(descs.deep_view(), t@, 0);
            match r {
                Some(k) => k as int == ix && ix < descs.deep_view().len(),
                None => ix == descs.deep_view().len(),
            }
        }),
{
    let mut j: usize = 0;
    while j < descs.len()
        invariant
            j <= descs@.len(),
            forall|m: int| 0 <= m < j ==> !spec_matches(#[trigger] descs.deep_view()[m], t@),
        decreases descs@.len() - j,
    {
        if descs[j].partial_eq_string(t) {
            proof {
                lemma_first_match_ix(descs.deep_view(), t@, 0);
                let ix = first_match_ix(descs.deep_view(), t@, 0);
                if ix < j {
                    assert(spec_matches(descs.deep_view()[ix], t@));
                }
                if ix > j {
                    assert(!spec_matches(descs.deep_view()[j as int], t@));
                }
            }
            return Some(j);
        }
        j += 1;
    }
    proof {
        lemma_first_match_ix(descs.deep_view(), t@, 0);
        let ix = first_match_ix(descs.deep_view(), t@, 0);
        if ix < descs.deep_view().len() {
            assert(spec_matches(descs.deep_view()[ix], t@));
        }
    }
    None
}

/// A single character that is some descriptor's short form.
pub open spec fn known_short(descs: Seq<ArgView>, c: char) -> bool {
    exists|j: int|
        0 <= j < descs.len() && (#[trigger] descs[j]).short is Some && descs[j].short->0 == seq![c]
}

fn is_known_short(descs: &Vec<Arg>, c: char) -> (r: bool)
    ensures
        r == known_short(descs.deep_view(), c),
{
    let mut j: usize = 0;
    while j < descs.len()
        invariant
            j <= descs@.len(),
            forall|m: int|
                0 <= m < j ==> !((#[trigger] descs.deep_view()[m]).short is Some
                    && descs.deep_view()[m].short->0 == seq![c]),
        decreases descs@.len() - j,
    {
        if let Some(s) = &descs[j].short {
            if s.as_str().unicode_len() == 1 && s.as_str().get_char(0) == c {
                proof {
                    assert(descs.deep_view()[j as int].short->0 =~= seq![c]);
                }
                return true;
            }
            proof {
                if descs.deep_view()[j as int].short->0 == seq![c] {
                    assert(s@.len() == 1 && s@[0] == c);
                }
            }
        }
        j += 1;
    }
    false
}

/// Whether the token is rewritten as a stacked short-flag cluster: a
/// short-style token of more than two characters that is not a signed
/// integer and carries no `=` or comma.
pub open spec fn is_cluster(arg: Seq<char>, options_ended: bool) -> bool {
    &&& !options_ended
    &&& arg.len() > 2
    &&& arg[0] == '-'
    &&& arg[1] != '-'
    &&& !spec_is_isize(arg)
    &&& !arg.contains(',')
    &&& !arg.contains('=')
}

/// The walk over a cluster's characters: each known short becomes its
/// own `-x` piece until the first unknown character, which starts the
/// trailing inline value.
pub ghost struct ClusterState {
    pub pieces: Seq<Seq<char>>,
    pub value: Seq<char>,
    pub unknown: bool,
}

pub open spec fn cluster_fold(descs: Seq<ArgView>, arg: Seq<char>, i: int) -> ClusterState
    decreases i,
{
    if i <= 1 {
        ClusterState { pieces: Seq::empty(), value: Seq::empty(), unknown: false }
    } else {
        let st = cluster_fold(descs, arg, i - 1);
        let c = arg[i - 1];
        if !st.unknown && known_short(descs, c) {
            ClusterState { pieces: st.pieces.push(seq!['-', c]), ..st }
        } else {
            ClusterState { value: st.value.push(c), unknown: true, ..st }
        }
    }
}

/// The pieces a cluster token explodes into: one `-x` per recognized
/// short flag, then the inline value if one remains.
pub open spec fn cluster_pieces(descs: Seq<ArgView>, arg: Seq<char>) -> Seq<Seq<char>> {
    let st = cluster_fold(descs, arg, arg.len() as int);
    if st.value.len() > 0 {
        st.pieces.push(st.value)
    } else {
        st.pieces
    }
}

/// Emit the pending flag alone, if one is waiting.
pub open spec fn flush_pending(st: NormState) -> NormState {
    if st.pending.len() > 0 {
        NormState { out: st.out.push(st.pending), pending: Seq::empty(), ..st }
    } else {
        st
    }
}

/// A `name=part` token for each comma-separated part.
pub open spec fn joined_parts(name: Seq<char>, parts: Seq<Seq<char>>) -> Seq<Seq<char>> {
    parts.map_values(|v: Seq<char>| name + seq!['='] + v)
}

/// One step of the normalizer on a single piece `p`: unknown tokens
/// pass through, flag-shaped tokens are emitted whole or become the
/// pending flag, and other tokens are joined to the pending flag as
/// its value. Once the end-of-options marker has been seen, every
/// piece passes through verbatim.
pub open spec fn piece_step(descs: Seq<ArgView>, st: NormState, p: Seq<char>) -> NormState {
    if st.options_ended {
        NormState { out: st.out.push(p), ..st }
    } else {
        piece_step_pre(descs, st, p)
    }
}

/// The piece step before the end-of-options marker has been seen.
pub open spec fn piece_step_pre(descs: Seq<ArgView>, st: NormState, p: Seq<char>) -> NormState {
    let ki = first_match_ix(descs, p, 0);
    let karg_some = ki < descs.len();
    if st.pending.len() == 0 && !karg_some {
        NormState { out: st.out.push(p), ..st }
    } else if !spec_is_isize(p) && p.len() > 1 && p[0] == '-' {
        let st1 = flush_pending(st);
        if (karg_some && descs[ki].value_type == ValueKind::NoValue) || p.contains('=') {
            if karg_some && descs[ki].value_type == ValueKind::Multi && p.contains(',') {
                let parts = split_char(p, '=');
                NormState {
                    out: st1.out + joined_parts(parts[0], split_char(parts[1], ',')),
                    ..st1
                }
            } else {
                NormState { out: st1.out.push(p), ..st1 }
            }
        } else {
            NormState { pending: p, ..st1 }
        }
    } else {
        let pi = first_match_ix(descs, st.pending, 0);
        let joined = if pi < descs.len() && descs[pi].value_type == ValueKind::Multi && p.contains(
            ',',
        ) {
            joined_parts(st.pending, split_char(p, ','))
        } else {
            seq![st.pending + seq!['='] + p]
        };
        NormState { out: st.out + joined, pending: Seq::empty(), ..st }
    }
}

pub open spec fn piece_fold(
    descs: Seq<ArgView>,
    st: NormState,
    pieces: Seq<Seq<char>>,
    i: int,
) -> NormState
    decreases i,
{
    if i <= 0 {
        st
    } else {
        piece_step(descs, piece_fold(descs, st, pieces, i - 1), pieces[i - 1])
    }
}

/// One step of the normalizer on a raw token. The first standalone
/// end-of-options marker flushes any pending flag alone and is itself
/// dropped from the output; after it, no token is reinterpreted. Any
/// other token is exploded into its cluster pieces, if it is a
/// cluster, and each piece is processed in turn.
pub open spec fn token_step(descs: Seq<ArgView>, st: NormState, arg: Seq<char>) -> NormState {
    if !st.options_ended && arg == ddash() {
        NormState { options_ended: true, ..flush_pending(st) }
    } else {
        let pieces = if is_cluster(arg, st.options_ended) {
            cluster_pieces(descs, arg)
        } else {
            seq![arg]
        };
        piece_fold(descs, st, pieces, pieces.len() as int)
    }
}

pub open spec fn norm_fold(descs: Seq<ArgView>, args: Seq<Seq<char>>, i: int) -> NormState
    decreases i,
{
    if i <= 0 {
        NormState { out: Seq::empty(), pending: Seq::empty(), options_ended: false }
    } else {
        token_step(descs, norm_fold(descs, args, i - 1), args[i - 1])
    }
}

/// The canonical stream the normalizer produces for `args` against
/// the descriptors `descs`: every raw token processed in order, and a
/// leftover pending flag emitted alone at the end.
pub open spec fn normalize_spec(args: Seq<Seq<char>>, descs: Seq<ArgView>) -> Seq<Seq<char>> {
    let st = norm_fold(descs, args, args.len() as int);
    if st.pending.len() > 0 {
        st.out.push(st.pending)
    } else {
        st.out
    }
}

/// Rewrite the raw token stream into the canonical stream: stacked
/// short flags are split apart with their inline value, a flag's
/// following value token is joined to it as `name=value`, and
/// comma-separated values of multi-value options become repeated
/// `name=part` tokens. The first standalone end-of-options marker is
/// dropped and everything after it is emitted verbatim as positional.
/// Everything else passes through unchanged — including a matched
/// token that carries a comma or an inline tail and so cannot be
/// rewritten into a self-contained `=` form; such an occurrence
/// reaches the binder without a value, and the validator then reports
/// the missing value.
pub fn normalize_env_args(args: &Vec<String>, kurisu_args: &Vec<Arg>) -> (r: Vec<String>)
    ensures
        r.deep_view() == normalize_spec(args.deep_view(), kurisu_args.deep_view()),
{
    let ghost descs = kurisu_args.deep_view();
    let ghost raw = args.deep_view();
    let mut out: Vec<String> = Vec::new();
    let mut pending: String = String::new();
    let mut options_ended: bool = false;
    let mut i: usize = 0;
    while i < args.len()
        invariant
            i <= args@.len(),
            raw == args.deep_view(),
            descs == kurisu_args.deep_view(),
            ({
                let st = norm_fold(descs, raw, i as int);
                st.out == out.deep_view() && st.pending == pending@ && st.options_ended
                    == options_ended
            }),
        decreases args@.len() - i,
    {
        let ghost st_pre = norm_fold(descs, raw, i as int);
        let ghost st_post = norm_fold(descs, raw, i + 1 as int);
        let arg: &String = &args[i];
        proof {
            assert(arg@ == raw[i as int]);
            assert(st_post == token_step(descs, st_pre, arg@));
            reveal_strlit("--");
            assert("--"@ =~= ddash());
        }
        if !options_ended && str_eq(arg.as_str(), "--") {
            if !pending.as_str().is_empty() {
                out.push(pending.clone());
                pending = String::new();
            }
            options_ended = true;
            proof {
                assert(out.deep_view() =~= st_post.out);
            }
            i += 1;
            continue;
        }
        let ghost st0 = st_pre;
        proof {
            assert(st0.out == out.deep_view() && st0.pending == pending@ && st0.options_ended
                == options_ended);
        }
        let alen = arg.as_str().unicode_len();
        let clustered = !options_ended && alen > 2 && arg.as_str().get_char(0) == '-'
            && arg.as_str().get_char(1) != '-' && !is_isize_str(arg.as_str())
            && !str_contains_char(arg.as_str(), ',') && !str_contains_char(arg.as_str(), '=');
        assert(clustered == is_cluster(arg@, st0.options_ended));
        let mut pieces: Vec<String> = Vec::new();
        if clustered {
            let mut ci: usize = 1;
            let mut value = String::new();
            let mut unknown = false;
            while ci < alen
                invariant
                    1 <= ci <= alen,
                    alen == arg@.len(),
                    descs == kurisu_args.deep_view(),
                    ({
                        let cst = cluster_fold(descs, arg@, ci as int);
                        cst.pieces == pieces.deep_view() && cst.value == value@ && cst.unknown
                            == unknown
                    }),
                decreases alen - ci,
            {
                let c = arg.as_str().get_char(ci);
                let ghost cst_pre = cluster_fold(descs, arg@, ci as int);
                let ghost cst_post = cluster_fold(descs, arg@, ci + 1 as int);
                if !unknown && is_known_short(kurisu_args, c) {
                    let piece = crate::strutil::concat2(
                        "-",
                        arg.as_str().substring_char(ci, ci + 1),
                    );
                    proof {
                        reveal_strlit("-");
                        assert(piece@ =~= seq!['-', c]);
                    }
                    pieces.push(piece);
                    assert(pieces.deep_view() =~= cst_post.pieces);
                } else {
                    unknown = true;
                    value.append(arg.as_str().substring_char(ci, ci + 1));
                    assert(value@ =~= cst_post.value);
                }
                ci += 1;
            }
            if value.as_str().unicode_len() > 0 {
                pieces.push(value);
            }
            assert(pieces.deep_view() =~= cluster_pieces(descs, arg@));
        } else {
            pieces.push(arg.clone());
            assert(pieces.deep_view() =~= seq![arg@]);
        }
        let ghost ps = pieces.deep_view();
        let mut j: usize = 0;
        while j < pieces.len()
            invariant
                j <= pieces@.len(),
                ps == pieces.deep_view(),
                descs == kurisu_args.deep_view(),
                ({
                    let st = piece_fold(descs, st0, ps, j as int);
                    st.out == out.deep_view() && st.pending == pending@ && st.options_ended
                        == options_ended
                }),
            decreases pieces@.len() - j,
        {
            let ghost stp = piece_fold(descs, st0, ps, j as int);
            let ghost stq = piece_fold(descs, st0, ps, j + 1 as int);
            let p: &String = &pieces[j];
            proof {
                assert(p@ == ps[j as int]);
                assert(stq == piece_step(descs, stp, p@));
            }
            if options_ended {
                out.push(p.clone());
                assert(out.deep_view() =~= stq.out);
                j += 1;
                continue;
            }
            let ki = find_match(kurisu_args, p.as_str());
            if pending.as_str().is_empty() && ki.is_none() {
                out.push(p.clone());
                assert(out.deep_view() =~= stq.out);
            } else {
                let plen = p.as_str().unicode_len();
                let flag_like = !is_isize_str(p.as_str()) && plen > 1 && p.as_str().get_char(0)
                    == '-';
                if flag_like {
                    let ghost st1 = flush_pending(stp);
                    if !pending.as_str().is_empty() {
                        out.push(pending.clone());
                        pending = String::new();
                        assert(out.deep_view() =~= st1.out);
                    }
                    let is_novalue = match ki {
                        Some(k) => matches!(kurisu_args[k].value_type, ValueKind::NoValue),
                        None => false,
                    };
                    let has_eq = str_contains_char(p.as_str(), '=');
                    if is_novalue || has_eq {
                        let is_multi = match ki {
                            Some(k) => matches!(kurisu_args[k].value_type, ValueKind::Multi),
                            None => false,
                        };
                        if is_multi && str_contains_char(p.as_str(), ',') {
                            proof {
                                lemma_split_char_two(p@, '=');
                            }
                            let parts = str_split_char(p.as_str(), '=');
                            let vals = str_split_char(parts[1].as_str(), ',');
                            let ghost base = out.deep_view();
                            let ghost jp = joined_parts(
                                parts.deep_view()[0],
                                split_char(parts.deep_view()[1], ','),
                            );
                            assert(vals.deep_view() == split_char(parts.deep_view()[1], ','));
                            let mut m: usize = 0;
                            while m < vals.len()
                                invariant
                                    m <= vals@.len(),
                                    vals.deep_view() == split_char(parts.deep_view()[1], ','),
                                    jp == joined_parts(parts.deep_view()[0], vals.deep_view()),
                                    parts.deep_view().len() >= 2,
                                    out.deep_view() == base + jp.subrange(0, m as int),
                                decreases vals@.len() - m,
                            {
                                let joined = concat3(
                                    parts[0].as_str(),
                                    "=",
                                    vals[m].as_str(),
                                );
                                proof {
                                    reveal_strlit("=");
                                    assert(joined@ =~= parts.deep_view()[0] + seq!['=']
                                        + vals.deep_view()[m as int]);
                                    assert(jp[m as int] == parts.deep_view()[0] + seq!['=']
                                        + vals.deep_view()[m as int]);
                                }
                                let ghost od = out.deep_view();
                                out.push(joined);
                                proof {
                                    assert(out.deep_view() =~= od.push(joined@));
                                    assert(jp.subrange(0, m + 1 as int) =~= jp.subrange(
                                        0,
                                        m as int,
                                    ).push(jp[m as int]));
                                    assert(od.push(joined@) =~= base + jp.subrange(
                                        0,
                                        m + 1 as int,
                                    ));
                                    assert(out.deep_view() == base + jp.subrange(0, m + 1 as int));
                                }
                                m += 1;
                            }
                            proof {
                                assert(jp.subrange(0, vals.deep_view().len() as int) =~= jp);
                                assert(out.deep_view() =~= stq.out);
                            }
                        } else {
                            out.push(p.clone());
                            assert(out.deep_view() =~= stq.out);
                        }
                    } else {
                        pending = p.clone();
                    }
                } else {
                    let pi = find_match(kurisu_args, pending.as_str());
                    let prev_multi = match pi {
                        Some(k) => matches!(kurisu_args[k].value_type, ValueKind::Multi),
                        None => false,
                    };
                    if prev_multi && str_contains_char(p.as_str(), ',') {
                        let vals = str_split_char(p.as_str(), ',');
                        let ghost base = out.deep_view();
                        let ghost jp = joined_parts(pending@, split_char(p@, ','));
                        let mut m: usize = 0;
                        while m < vals.len()
                            invariant
                                m <= vals@.len(),
                                vals.deep_view() == split_char(p@, ','),
                                jp == joined_parts(pending@, vals.deep_view()),
                                out.deep_view() == base + jp.subrange(0, m as int),
                            decreases vals@.len() - m,
                        {
                            let joined = concat3(pending.as_str(), "=", vals[m].as_str());
                            proof {
                                reveal_strlit("=");
                                assert(joined@ =~= pending@ + seq!['='] + vals.deep_view()[
                                m as int]);
                                assert(jp[m as int] == pending@ + seq!['='] + vals.deep_view()[
                                m as int]);
                            }
                            let ghost od = out.deep_view();
                            out.push(joined);
                            proof {
                                assert(out.deep_view() =~= od.push(joined@));
                                assert(jp.subrange(0, m + 1 as int) =~= jp.subrange(0, m as int)
                                    .push(jp[m as int]));
                                assert(od.push(joined@) =~= base + jp.subrange(0, m + 1 as int));
                                assert(out.deep_view() == base + jp.subrange(0, m + 1 as int));
                            }
                            m += 1;
                        }
                        proof {
                            assert(jp.subrange(0, vals.deep_view().len() as int) =~= jp);
                            assert(out.deep_view() =~= stq.out);
                        }
                    } else {
                        let joined = concat3(pending.as_str(), "=", p.as_str());
                        proof {
                            reveal_strlit("=");
                            assert(joined@ =~= pending@ + seq!['='] + p@);
                        }
                        out.push(joined);
                        assert(out.deep_view() =~= stq.out);
                    }
                    pending = String::new();
                }
            }
            j += 1;
        }
        proof {
            assert(piece_fold(descs, st0, ps, ps.len() as int) == st_post);
        }
        i += 1;
    }
    if !pending.as_str().is_empty() {
        out.push(pending);
        assert(out.deep_view() =~= normalize_spec(raw, descs));
    } else {
        assert(out.deep_view() =~= normalize_spec(raw, descs));
    }
    out
}

/// `=`-splitting a token that holds an `=` gives at least two parts.
pub proof fn lemma_split_char_two(s: Seq<char>, c: char)
    requires
        s.contains(c),
    ensures
        split_char(s, c).len() >= 2,
        split_char(s, c).len() >= 1,
{
    lemma_find_char_from(s, c, 0);
    let ix = find_char_from(s, c, 0);
    if ix >= s.len() {
        let w = choose|j: int| 0 <= j < s.len() && s[j] == c;
        assert(s[w] != c);
    }
    lemma_split_char_one(s.subrange(ix + 1, s.len() as int), c);
}

pub proof fn lemma_split_char_one(s: Seq<char>, c: char)
    ensures
        split_char(s, c).len() >= 1,
    decreases s.len(),
{
    lemma_find_char_from(s, c, 0);
}

} // verus!
