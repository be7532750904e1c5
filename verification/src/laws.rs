//! Laws of the engine: properties that relate the normalizer, the
//! binder and the registry across inputs, stated and proved once and
//! for all.

use vstd::prelude::*;

use crate::arg::{
    after_eq, bind_fold, bind_result, bind_step, ddash, spec_matches, true_lit, ArgPosition,
    ArgView, ValueKind,
};
use crate::normalize::{
    cluster_fold, cluster_pieces, first_match_ix, flush_pending, is_cluster, joined_parts,
    known_short, lemma_first_match_ix, norm_fold, normalize_spec, piece_fold, piece_step,
    token_step, NormState,
};
use crate::strutil::{
    find_char_from, is_digit_char, lemma_find_char_from, signed_body, spec_is_isize, split_char,
};

verus! {

/// A token that does not begin with a dash matches no descriptor.
proof fn lemma_no_match_nondash(descs: Seq<ArgView>, t: Seq<char>, from: int)
    requires
        t.len() == 0 || t[0] != '-',
        0 <= from <= descs.len(),
    ensures
        first_match_ix(descs, t, from) == descs.len(),
    decreases descs.len() - from,
{
    if from < descs.len() {
        assert(!spec_matches(descs[from], t));
        lemma_no_match_nondash(descs, t, from + 1);
    }
}

/// A literal with a non-digit in its body is no signed integer.
proof fn lemma_not_isize_at(t: Seq<char>, j: int)
    requires
        0 <= j < signed_body(t).len(),
        !is_digit_char(signed_body(t)[j]),
    ensures
        !spec_is_isize(t),
{
    if crate::strutil::all_digits(signed_body(t)) {
        assert(is_digit_char(signed_body(t)[j]));
    }
}

/// The first occurrence of `c` in `s` is exactly `at`.
proof fn lemma_find_char_at(s: Seq<char>, c: char, at: int)
    requires
        0 <= at < s.len(),
        s[at] == c,
        forall|j: int| 0 <= j < at ==> s[j] != c,
    ensures
        find_char_from(s, c, 0) == at,
{
    lemma_find_char_from(s, c, 0);
    let r = find_char_from(s, c, 0);
    if r < at {
        assert(s[r] == c);
    }
    if r > at {
        assert(s[at] != c);
    }
}

/// `c` does not occur in `s` at all.
proof fn lemma_find_char_none(s: Seq<char>, c: char)
    requires
        forall|j: int| 0 <= j < s.len() ==> s[j] != c,
    ensures
        find_char_from(s, c, 0) == s.len(),
        !s.contains(c),
{
    lemma_find_char_from(s, c, 0);
    if find_char_from(s, c, 0) < s.len() {
        assert(s[find_char_from(s, c, 0)] == c);
    }
    if s.contains(c) {
        let w = choose|j: int| 0 <= j < s.len() && s[j] == c;
        assert(s[w] != c);
    }
}

proof fn lemma_options_ended_monotone(
    a: ArgView,
    positions: Seq<ArgPosition>,
    n: int,
    args: Seq<Seq<char>>,
    i: int,
    j: int,
)
    requires
        0 <= i <= j,
        bind_fold(a, positions, n, args, i).options_ended,
    ensures
        bind_fold(a, positions, n, args, j).options_ended,
    decreases j - i,
{
    if i < j {
        lemma_options_ended_monotone(a, positions, n, args, i, j - 1);
        assert(bind_fold(a, positions, n, args, j) == bind_step(
            a,
            positions,
            n,
            j - 1,
            args[j - 1],
            bind_fold(a, positions, n, args, j - 1),
        ));
    }
}

/// After a lone end-of-options marker, the Value Binder treats every
/// later token as positional: its scan state keeps the end-of-options
/// flag, nothing matches as a flag any more, and every later token
/// advances the positional counter of a positional descriptor — and
/// can bind to it — even when the token begins with `-`.
pub proof fn lemma_end_of_options_positional(
    a: ArgView,
    positions: Seq<ArgPosition>,
    args: Seq<Seq<char>>,
    k: int,
    i: int,
)
    requires
        0 <= k < i < args.len(),
        args[k] == ddash(),
    ensures
        bind_fold(a, positions, args.len() as int, args, i).options_ended,
        a.position is Some ==> bind_fold(a, positions, args.len() as int, args, i + 1).pos
            == bind_fold(a, positions, args.len() as int, args, i).pos + 1,
{
    let n = args.len() as int;
    assert(bind_fold(a, positions, n, args, k + 1) == bind_step(
        a,
        positions,
        n,
        k,
        args[k],
        bind_fold(a, positions, n, args, k),
    ));
    assert(bind_fold(a, positions, n, args, k + 1).options_ended);
    lemma_options_ended_monotone(a, positions, n, args, k + 1, i);
    assert(bind_fold(a, positions, n, args, i + 1) == bind_step(
        a,
        positions,
        n,
        i,
        args[i],
        bind_fold(a, positions, n, args, i),
    ));
}

/// Fallback order: when the scan bound no value, a non-empty default
/// is taken, whatever the environment table holds — every environment
/// gives the same result.
pub proof fn lemma_default_beats_env(
    a: ArgView,
    args: Seq<Seq<char>>,
    positions: Seq<ArgPosition>,
)
    requires
        bind_fold(a, positions, args.len() as int, args, args.len() as int).value.len() == 0,
        a.default.len() > 0,
    ensures
        forall|env: Seq<(Seq<char>, Seq<char>)>|
            (#[trigger] bind_result(a, args, positions, env)).value == seq![a.default],
{
}

/// A token the normalizer leaves untouched: not the end-of-options
/// marker, not a flag cluster, and, when it matches a descriptor, a
/// self-contained flag or option form that neither becomes a pending
/// flag nor is split on commas.
pub open spec fn canonical_token(descs: Seq<ArgView>, t: Seq<char>) -> bool {
    let ki = first_match_ix(descs, t, 0);
    &&& t != ddash()
    &&& !(t.len() > 2 && t[0] == '-' && t[1] != '-' && !spec_is_isize(t) && !t.contains(',')
        && !t.contains('='))
    &&& (ki < descs.len() ==> {
        &&& !spec_is_isize(t)
        &&& t.len() > 1
        &&& (descs[ki].value_type == ValueKind::NoValue || t.contains('='))
        &&& !(descs[ki].value_type == ValueKind::Multi && t.contains(','))
    })
}

/// Every token of the stream is canonical for the given descriptors.
pub open spec fn canonical_stream(descs: Seq<ArgView>, args: Seq<Seq<char>>) -> bool {
    forall|i: int| 0 <= i < args.len() ==> canonical_token(descs, #[trigger] args[i])
}

proof fn lemma_norm_fold_canonical(descs: Seq<ArgView>, args: Seq<Seq<char>>, i: int)
    requires
        canonical_stream(descs, args),
        0 <= i <= args.len(),
    ensures
        norm_fold(descs, args, i).out == args.subrange(0, i),
        norm_fold(descs, args, i).pending.len() == 0,
        !norm_fold(descs, args, i).options_ended,
    decreases i,
{
    if i == 0 {
        assert(norm_fold(descs, args, 0).out =~= args.subrange(0, 0));
    } else {
        lemma_norm_fold_canonical(descs, args, i - 1);
        let st = norm_fold(descs, args, i - 1);
        let t = args[i - 1];
        assert(canonical_token(descs, t));
        assert(norm_fold(descs, args, i) == token_step(descs, st, t));
        assert(!is_cluster(t, st.options_ended));
        let pieces = seq![t];
        assert(token_step(descs, st, t) == piece_fold(descs, st, pieces, 1));
        assert(piece_fold(descs, st, pieces, 1) == piece_step(
            descs,
            piece_fold(descs, st, pieces, 0),
            t,
        ));
        let ki = first_match_ix(descs, t, 0);
        lemma_first_match_ix(descs, t, 0);
        if ki < descs.len() {
            assert(spec_matches(descs[ki], t));
            assert(t.len() > 0 && t[0] == '-');
            assert(piece_step(descs, st, t).out == st.out.push(t));
            assert(piece_step(descs, st, t).pending.len() == 0);
        } else {
            assert(piece_step(descs, st, t).out == st.out.push(t));
        }
        assert(args.subrange(0, i).drop_last() =~= args.subrange(0, i - 1));
        assert(norm_fold(descs, args, i).out =~= args.subrange(0, i));
    }
}

/// Idempotence on canonical input: normalization leaves a stream of
/// canonical tokens exactly as it is. A normalizer output need not be
/// canonical, and on such streams a second pass differs: a cluster's
/// inline tail that begins with a dash comes out as a token a fresh
/// pass would re-cluster or re-join (`-a-x1` against a single-value
/// `-a` becomes `-a` `-x1`, then `-a=x1`), and the tokens behind a
/// dropped end-of-options marker come out verbatim with nothing left
/// to shield them (`-s` `--` `x` becomes `-s` `x`, then `-s=x`).
pub proof fn lemma_normalize_canonical_identity(descs: Seq<ArgView>, args: Seq<Seq<char>>)
    requires
        canonical_stream(descs, args),
    ensures
        normalize_spec(args, descs) == args,
{
    lemma_norm_fold_canonical(descs, args, args.len() as int);
    assert(args.subrange(0, args.len() as int) =~= args);
}

/// Infinite-vs-fixed: with the declared positions holding exactly one
/// fixed slot at the second position and no last-anchored slot, five
/// positional tokens give the fixed descriptor exactly the second
/// token, and the infinite descriptor the other four in their
/// original order.
pub proof fn lemma_infinite_vs_fixed(
    df: ArgView,
    di: ArgView,
    positions: Seq<ArgPosition>,
    args: Seq<Seq<char>>,
    env: Seq<(Seq<char>, Seq<char>)>,
)
    requires
        args.len() == 5,
        positions == seq![ArgPosition::Fixed(2usize)],
        df.position == Some(ArgPosition::Fixed(2usize)),
        di.position == Some(ArgPosition::Infinite),
        df.value.len() == 0,
        di.value.len() == 0,
        forall|i: int|
            0 <= i < 5 ==> ((#[trigger] args[i]).len() == 0 || args[i][0] != '-' || args[i].len()
                == 1),
        forall|i: int| 0 <= i < 5 ==> #[trigger] args[i] != ddash(),
        forall|i: int| 0 <= i < 5 ==> !spec_matches(df, #[trigger] args[i]),
        forall|i: int| 0 <= i < 5 ==> !spec_matches(di, #[trigger] args[i]),
    ensures
        bind_result(df, args, positions, env).value == seq![args[1]],
        bind_result(di, args, positions, env).value == seq![args[0], args[2], args[3], args[4]],
{
    assert(positions[0] == ArgPosition::Fixed(2usize));
    assert(crate::arg::has_fixed(positions, 2)) by {
        assert(crate::arg::pos_eq_fixed(positions[0], 2));
    }
    assert(!crate::arg::has_last(positions));
    assert(!crate::arg::has_fixed(positions, 1));
    assert(!crate::arg::has_fixed(positions, 3));
    assert(!crate::arg::has_fixed(positions, 4));
    assert(!crate::arg::has_fixed(positions, 5));
    let f0 = bind_fold(df, positions, 5, args, 0);
    let f1 = bind_fold(df, positions, 5, args, 1);
    let f2 = bind_fold(df, positions, 5, args, 2);
    let f3 = bind_fold(df, positions, 5, args, 3);
    let f4 = bind_fold(df, positions, 5, args, 4);
    let f5 = bind_fold(df, positions, 5, args, 5);
    assert(f1 == bind_step(df, positions, 5, 0, args[0], f0));
    assert(f1.pos == 2 && f1.value == df.value && !f1.options_ended);
    assert(f2 == bind_step(df, positions, 5, 1, args[1], f1));
    assert(f2.pos == 3 && f2.value == df.value.push(args[1]) && !f2.options_ended);
    assert(f3 == bind_step(df, positions, 5, 2, args[2], f2));
    assert(f3.pos == 4 && f3.value == f2.value && !f3.options_ended);
    assert(f4 == bind_step(df, positions, 5, 3, args[3], f3));
    assert(f4.pos == 5 && f4.value == f2.value && !f4.options_ended);
    assert(f5 == bind_step(df, positions, 5, 4, args[4], f4));
    assert(f5.value == f2.value);
    assert(f5.value =~= seq![args[1]]);
    let g0 = bind_fold(di, positions, 5, args, 0);
    let g1 = bind_fold(di, positions, 5, args, 1);
    let g2 = bind_fold(di, positions, 5, args, 2);
    let g3 = bind_fold(di, positions, 5, args, 3);
    let g4 = bind_fold(di, positions, 5, args, 4);
    let g5 = bind_fold(di, positions, 5, args, 5);
    assert(g1 == bind_step(di, positions, 5, 0, args[0], g0));
    assert(g1.pos == 2 && g1.value == di.value.push(args[0]) && !g1.options_ended);
    assert(g2 == bind_step(di, positions, 5, 1, args[1], g1));
    assert(g2.pos == 3 && g2.value == g1.value && !g2.options_ended);
    assert(g3 == bind_step(di, positions, 5, 2, args[2], g2));
    assert(g3.pos == 4 && g3.value == g1.value.push(args[2]) && !g3.options_ended);
    assert(g4 == bind_step(di, positions, 5, 3, args[3], g3));
    assert(g4.pos == 5 && g4.value == g3.value.push(args[3]) && !g4.options_ended);
    assert(g5 == bind_step(di, positions, 5, 4, args[4], g4));
    assert(g5.value == g4.value.push(args[4]));
    assert(g5.value =~= seq![args[0], args[2], args[3], args[4]]);
}


/// Stacking law: where `-a` and `-b` are flags and `-c` takes a single
/// value, the stacked `-abc value` normalizes to the same canonical
/// stream as the spelled-out `-a -b -c=value`; binding is a function
/// of the canonical stream, so every descriptor binds identically
/// under either spelling.
pub proof fn lemma_short_flag_stacking(descs: Seq<ArgView>, ia: int, ib: int, ic: int)
    requires
        known_short(descs, 'a'),
        known_short(descs, 'b'),
        known_short(descs, 'c'),
        0 <= ia < descs.len(),
        0 <= ib < descs.len(),
        0 <= ic < descs.len(),
        first_match_ix(descs, seq!['-', 'a'], 0) == ia,
        first_match_ix(descs, seq!['-', 'b'], 0) == ib,
        first_match_ix(descs, seq!['-', 'c'], 0) == ic,
        first_match_ix(descs, seq!['-', 'c', '=', 'v', 'a', 'l', 'u', 'e'], 0) == ic,
        descs[ia].value_type == ValueKind::NoValue,
        descs[ib].value_type == ValueKind::NoValue,
        descs[ic].value_type == ValueKind::Single,
    ensures
        normalize_spec(seq![seq!['-', 'a', 'b', 'c'], seq!['v', 'a', 'l', 'u', 'e']], descs)
            == seq![seq!['-', 'a'], seq!['-', 'b'], seq!['-', 'c', '=', 'v', 'a', 'l', 'u', 'e']],
        normalize_spec(
            seq![seq!['-', 'a'], seq!['-', 'b'], seq!['-', 'c', '=', 'v', 'a', 'l', 'u', 'e']],
            descs,
        ) == normalize_spec(
            seq![seq!['-', 'a', 'b', 'c'], seq!['v', 'a', 'l', 'u', 'e']],
            descs,
        ),
{
    let tok = seq!['-', 'a', 'b', 'c'];
    let val = seq!['v', 'a', 'l', 'u', 'e'];
    let pa = seq!['-', 'a'];
    let pb = seq!['-', 'b'];
    let pc = seq!['-', 'c'];
    let pcv = seq!['-', 'c', '=', 'v', 'a', 'l', 'u', 'e'];
    assert(tok[0] == '-' && tok[1] == 'a' && tok[2] == 'b' && tok[3] == 'c' && tok.len() == 4);
    assert(val[0] == 'v' && val.len() == 5);
    assert(pa[0] == '-' && pa[1] == 'a' && pa.len() == 2);
    assert(pb[0] == '-' && pb[1] == 'b' && pb.len() == 2);
    assert(pc[0] == '-' && pc[1] == 'c' && pc.len() == 2);
    assert(pcv[0] == '-' && pcv[1] == 'c' && pcv[2] == '=' && pcv.len() == 8);
    // character-shape facts about the literals
    assert(signed_body(tok) =~= seq!['a', 'b', 'c']);
    lemma_not_isize_at(tok, 0);
    assert(!tok.contains(',')) by {
        lemma_find_char_none(tok, ',');
    }
    assert(!tok.contains('=')) by {
        lemma_find_char_none(tok, '=');
    }
    assert(signed_body(pa) =~= seq!['a']);
    lemma_not_isize_at(pa, 0);
    assert(signed_body(pb) =~= seq!['b']);
    lemma_not_isize_at(pb, 0);
    assert(signed_body(pc) =~= seq!['c']);
    lemma_not_isize_at(pc, 0);
    assert(signed_body(pcv) =~= seq!['c', '=', 'v', 'a', 'l', 'u', 'e']);
    lemma_not_isize_at(pcv, 0);
    assert(pcv.contains('='));
    assert(!pcv.contains(',')) by {
        lemma_find_char_none(pcv, ',');
    }
    assert(tok != ddash() && val != ddash() && pa != ddash() && pb != ddash() && pcv != ddash())
        by {
        assert(ddash().len() == 2);
        assert(ddash()[1] == '-');
    }
    lemma_no_match_nondash(descs, val, 0);
    lemma_first_match_ix(descs, pc, 0);
    // the cluster walk over `-abc`
    let init = NormState { out: Seq::empty(), pending: Seq::empty(), options_ended: false };
    assert(is_cluster(tok, false));
    let c1 = cluster_fold(descs, tok, 1);
    assert(c1.pieces =~= Seq::<Seq<char>>::empty());
    assert(c1.value =~= Seq::<char>::empty());
    assert(!c1.unknown);
    let c2 = cluster_fold(descs, tok, 2);
    assert(c2.pieces =~= seq![pa] && c2.value =~= Seq::<char>::empty() && !c2.unknown);
    let c3 = cluster_fold(descs, tok, 3);
    assert(c3.pieces =~= seq![pa, pb] && c3.value =~= Seq::<char>::empty() && !c3.unknown);
    let c4 = cluster_fold(descs, tok, 4);
    assert(c4.pieces =~= seq![pa, pb, pc] && c4.value =~= Seq::<char>::empty() && !c4.unknown);
    assert(cluster_pieces(descs, tok) =~= seq![pa, pb, pc]);
    // the piece walk of the first raw token
    let pieces = cluster_pieces(descs, tok);
    let s0 = piece_fold(descs, init, pieces, 0);
    assert(s0 == init);
    let s1 = piece_fold(descs, init, pieces, 1);
    assert(s1 == piece_step(descs, s0, pa));
    assert(s1.out =~= seq![pa] && s1.pending.len() == 0 && !s1.options_ended);
    let s2 = piece_fold(descs, init, pieces, 2);
    assert(s2 == piece_step(descs, s1, pb));
    assert(s2.out =~= seq![pa, pb] && s2.pending.len() == 0 && !s2.options_ended);
    let s3 = piece_fold(descs, init, pieces, 3);
    assert(s3 == piece_step(descs, s2, pc));
    assert(s3.out =~= seq![pa, pb] && s3.pending =~= pc && !s3.options_ended);
    let x1 = seq![tok, val];
    let f0 = norm_fold(descs, x1, 0);
    assert(f0 == init);
    let f1 = norm_fold(descs, x1, 1);
    assert(f1 == token_step(descs, f0, tok));
    assert(f1 == s3);
    // the second raw token joins the pending flag
    let f2 = norm_fold(descs, x1, 2);
    assert(f2 == token_step(descs, f1, val));
    assert(!is_cluster(val, f1.options_ended));
    assert(piece_fold(descs, f1, seq![val], 0) == f1);
    assert(seq![val][0] == val);
    assert(piece_fold(descs, f1, seq![val], 1) == piece_step(descs, f1, val));
    assert(f2 == piece_step(descs, f1, val));
    assert(pc + seq!['='] + val =~= pcv);
    assert(f2.out =~= seq![pa, pb, pcv] && f2.pending.len() == 0);
    assert(normalize_spec(x1, descs) =~= seq![pa, pb, pcv]);
    // the spelled-out stream passes through unchanged
    let x2 = seq![pa, pb, pcv];
    let g0 = norm_fold(descs, x2, 0);
    assert(g0 == init);
    let g1 = norm_fold(descs, x2, 1);
    assert(g1 == token_step(descs, g0, pa));
    assert(!is_cluster(pa, false));
    assert(piece_fold(descs, g0, seq![pa], 0) == g0);
    assert(seq![pa][0] == pa);
    assert(piece_fold(descs, g0, seq![pa], 1) == piece_step(descs, g0, pa));
    assert(g1 == piece_step(descs, g0, pa));
    assert(g1.out =~= seq![pa] && g1.pending.len() == 0 && !g1.options_ended);
    let g2 = norm_fold(descs, x2, 2);
    assert(g2 == token_step(descs, g1, pb));
    assert(!is_cluster(pb, false));
    assert(piece_fold(descs, g1, seq![pb], 0) == g1);
    assert(seq![pb][0] == pb);
    assert(piece_fold(descs, g1, seq![pb], 1) == piece_step(descs, g1, pb));
    assert(g2 == piece_step(descs, g1, pb));
    assert(g2.out =~= seq![pa, pb] && g2.pending.len() == 0 && !g2.options_ended);
    let g3 = norm_fold(descs, x2, 3);
    assert(g3 == token_step(descs, g2, pcv));
    assert(!is_cluster(pcv, false));
    assert(piece_fold(descs, g2, seq![pcv], 0) == g2);
    assert(seq![pcv][0] == pcv);
    assert(piece_fold(descs, g2, seq![pcv], 1) == piece_step(descs, g2, pcv));
    assert(g3 == piece_step(descs, g2, pcv));
    assert(g3.out =~= seq![pa, pb, pcv] && g3.pending.len() == 0);
    assert(normalize_spec(x2, descs) =~= seq![pa, pb, pcv]);
}

/// Multi-value comma law: `--opt=a,b,c` against a multi-value
/// descriptor normalizes to the three tokens `--opt=a --opt=b
/// --opt=c`, which normalize to themselves, and binding the
/// descriptor against that stream yields exactly the values `a`, `b`,
/// `c` in order.
pub proof fn lemma_multi_value_comma(
    descs: Seq<ArgView>,
    m: int,
    positions: Seq<ArgPosition>,
    env: Seq<(Seq<char>, Seq<char>)>,
)
    requires
        0 <= m < descs.len(),
        first_match_ix(descs, seq!['-', '-', 'o', 'p', 't', '=', 'a', ',', 'b', ',', 'c'], 0)
            == m,
        first_match_ix(descs, seq!['-', '-', 'o', 'p', 't', '=', 'a'], 0) == m,
        first_match_ix(descs, seq!['-', '-', 'o', 'p', 't', '=', 'b'], 0) == m,
        first_match_ix(descs, seq!['-', '-', 'o', 'p', 't', '=', 'c'], 0) == m,
        descs[m].value_type == ValueKind::Multi,
        descs[m].value.len() == 0,
    ensures
        normalize_spec(
            seq![seq!['-', '-', 'o', 'p', 't', '=', 'a', ',', 'b', ',', 'c']],
            descs,
        ) == seq![
            seq!['-', '-', 'o', 'p', 't', '=', 'a'],
            seq!['-', '-', 'o', 'p', 't', '=', 'b'],
            seq!['-', '-', 'o', 'p', 't', '=', 'c'],
        ],
        normalize_spec(
            seq![
                seq!['-', '-', 'o', 'p', 't', '=', 'a'],
                seq!['-', '-', 'o', 'p', 't', '=', 'b'],
                seq!['-', '-', 'o', 'p', 't', '=', 'c'],
            ],
            descs,
        ) == seq![
            seq!['-', '-', 'o', 'p', 't', '=', 'a'],
            seq!['-', '-', 'o', 'p', 't', '=', 'b'],
            seq!['-', '-', 'o', 'p', 't', '=', 'c'],
        ],
        bind_result(
            descs[m],
            seq![
                seq!['-', '-', 'o', 'p', 't', '=', 'a'],
                seq!['-', '-', 'o', 'p', 't', '=', 'b'],
                seq!['-', '-', 'o', 'p', 't', '=', 'c'],
            ],
            positions,
            env,
        ).value == seq![seq!['a'], seq!['b'], seq!['c']],
{
    let big = seq!['-', '-', 'o', 'p', 't', '=', 'a', ',', 'b', ',', 'c'];
    let t1 = seq!['-', '-', 'o', 'p', 't', '=', 'a'];
    let t2 = seq!['-', '-', 'o', 'p', 't', '=', 'b'];
    let t3 = seq!['-', '-', 'o', 'p', 't', '=', 'c'];
    let name = seq!['-', '-', 'o', 'p', 't'];
    let vpart = seq!['a', ',', 'b', ',', 'c'];
    assert(big.len() == 11 && big[0] == '-' && big[1] == '-' && big[2] == 'o' && big[3] == 'p'
        && big[4] == 't' && big[5] == '=' && big[6] == 'a' && big[7] == ',' && big[8] == 'b'
        && big[9] == ',' && big[10] == 'c');
    assert(t1.len() == 7 && t1[0] == '-' && t1[1] == '-' && t1[5] == '=' && t1[6] == 'a');
    assert(t2.len() == 7 && t2[0] == '-' && t2[1] == '-' && t2[5] == '=' && t2[6] == 'b');
    assert(t3.len() == 7 && t3[0] == '-' && t3[1] == '-' && t3[5] == '=' && t3[6] == 'c');
    // shape facts
    assert(signed_body(big) =~= big.subrange(1, 11));
    assert(signed_body(big)[0] == '-');
    lemma_not_isize_at(big, 0);
    assert(big.contains('='));
    assert(big.contains(','));
    assert(signed_body(t1) =~= t1.subrange(1, 7));
    assert(signed_body(t1)[0] == '-');
    lemma_not_isize_at(t1, 0);
    assert(signed_body(t2) =~= t2.subrange(1, 7));
    assert(signed_body(t2)[0] == '-');
    lemma_not_isize_at(t2, 0);
    assert(signed_body(t3) =~= t3.subrange(1, 7));
    assert(signed_body(t3)[0] == '-');
    lemma_not_isize_at(t3, 0);
    assert(t1.contains('=') && t2.contains('=') && t3.contains('='));
    assert(!t1.contains(',')) by {
        lemma_find_char_none(t1, ',');
    }
    assert(!t2.contains(',')) by {
        lemma_find_char_none(t2, ',');
    }
    assert(!t3.contains(',')) by {
        lemma_find_char_none(t3, ',');
    }
    assert(big != ddash() && t1 != ddash() && t2 != ddash() && t3 != ddash()) by {
        assert(ddash().len() == 2);
    }
    // splitting the joined token
    lemma_find_char_at(big, '=', 5);
    let rest = big.subrange(6, 11);
    assert(rest =~= vpart);
    lemma_find_char_none(vpart, '=');
    assert(split_char(vpart, '=') =~= seq![vpart]);
    assert(split_char(big, '=') =~= seq![name, vpart]) by {
        assert(big.subrange(0, 5) =~= name);
    }
    lemma_find_char_at(vpart, ',', 1);
    let v2 = vpart.subrange(2, 5);
    assert(v2 =~= seq!['b', ',', 'c']);
    lemma_find_char_at(v2, ',', 1);
    let v3 = v2.subrange(2, 3);
    assert(v3 =~= seq!['c']);
    lemma_find_char_none(v3, ',');
    assert(split_char(v3, ',') =~= seq![seq!['c']]);
    assert(split_char(v2, ',') =~= seq![seq!['b'], seq!['c']]) by {
        assert(v2.subrange(0, 1) =~= seq!['b']);
    }
    assert(split_char(vpart, ',') =~= seq![seq!['a'], seq!['b'], seq!['c']]) by {
        assert(vpart.subrange(0, 1) =~= seq!['a']);
    }
    let vals = split_char(vpart, ',');
    assert(joined_parts(name, vals) =~= seq![t1, t2, t3]) by {
        assert(name + seq!['='] + seq!['a'] =~= t1);
        assert(name + seq!['='] + seq!['b'] =~= t2);
        assert(name + seq!['='] + seq!['c'] =~= t3);
        assert(joined_parts(name, vals).len() == 3);
        assert(joined_parts(name, vals)[0] == name + seq!['='] + vals[0]);
        assert(joined_parts(name, vals)[1] == name + seq!['='] + vals[1]);
        assert(joined_parts(name, vals)[2] == name + seq!['='] + vals[2]);
    }
    // normalizing the joined spelling
    let init = NormState { out: Seq::empty(), pending: Seq::empty(), options_ended: false };
    let x1 = seq![big];
    assert(norm_fold(descs, x1, 0) == init);
    assert(x1[0] == big);
    let f1 = norm_fold(descs, x1, 1);
    assert(f1 == token_step(descs, init, big));
    assert(!is_cluster(big, false));
    assert(piece_fold(descs, init, seq![big], 0) == init);
    assert(seq![big][0] == big);
    assert(piece_fold(descs, init, seq![big], 1) == piece_step(descs, init, big));
    assert(f1 == piece_step(descs, init, big));
    assert(f1.out =~= seq![t1, t2, t3] && f1.pending.len() == 0);
    assert(normalize_spec(x1, descs) =~= seq![t1, t2, t3]);
    // the split spelling passes through unchanged
    let x2 = seq![t1, t2, t3];
    assert(norm_fold(descs, x2, 0) == init);
    assert(x2[0] == t1 && x2[1] == t2 && x2[2] == t3);
    let g1 = norm_fold(descs, x2, 1);
    assert(g1 == token_step(descs, init, t1));
    assert(!is_cluster(t1, false));
    assert(piece_fold(descs, init, seq![t1], 0) == init);
    assert(seq![t1][0] == t1);
    assert(piece_fold(descs, init, seq![t1], 1) == piece_step(descs, init, t1));
    assert(g1 == piece_step(descs, init, t1));
    assert(g1.out =~= seq![t1] && g1.pending.len() == 0 && !g1.options_ended);
    let g2 = norm_fold(descs, x2, 2);
    assert(g2 == token_step(descs, g1, t2));
    assert(!is_cluster(t2, g1.options_ended));
    assert(piece_fold(descs, g1, seq![t2], 0) == g1);
    assert(seq![t2][0] == t2);
    assert(piece_fold(descs, g1, seq![t2], 1) == piece_step(descs, g1, t2));
    assert(g2 == piece_step(descs, g1, t2));
    assert(g2.out =~= seq![t1, t2] && g2.pending.len() == 0 && !g2.options_ended);
    let g3 = norm_fold(descs, x2, 3);
    assert(g3 == token_step(descs, g2, t3));
    assert(!is_cluster(t3, g2.options_ended));
    assert(piece_fold(descs, g2, seq![t3], 0) == g2);
    assert(seq![t3][0] == t3);
    assert(piece_fold(descs, g2, seq![t3], 1) == piece_step(descs, g2, t3));
    assert(g3 == piece_step(descs, g2, t3));
    assert(g3.out =~= seq![t1, t2, t3] && g3.pending.len() == 0);
    assert(normalize_spec(x2, descs) =~= seq![t1, t2, t3]);
    // binding the descriptor against the canonical stream
    let d = descs[m];
    lemma_first_match_ix(descs, t1, 0);
    lemma_first_match_ix(descs, t2, 0);
    lemma_first_match_ix(descs, t3, 0);
    assert(spec_matches(d, t1) && spec_matches(d, t2) && spec_matches(d, t3));
    lemma_find_char_at(t1, '=', 5);
    lemma_find_char_at(t2, '=', 5);
    lemma_find_char_at(t3, '=', 5);
    assert(after_eq(t1) =~= seq!['a']);
    assert(after_eq(t2) =~= seq!['b']);
    assert(after_eq(t3) =~= seq!['c']);
    let b0 = bind_fold(d, positions, 3, x2, 0);
    let b1 = bind_fold(d, positions, 3, x2, 1);
    assert(b1 == bind_step(d, positions, 3, 0, t1, b0));
    assert(b1.value =~= seq![seq!['a']]);
    let b2 = bind_fold(d, positions, 3, x2, 2);
    assert(b2 == bind_step(d, positions, 3, 1, t2, b1));
    assert(b2.value =~= seq![seq!['a'], seq!['b']]);
    let b3 = bind_fold(d, positions, 3, x2, 3);
    assert(b3 == bind_step(d, positions, 3, 2, t3, b2));
    assert(b3.value =~= seq![seq!['a'], seq!['b'], seq!['c']]);
}


proof fn lemma_piece_fold_oe(descs: Seq<ArgView>, st: NormState, ps: Seq<Seq<char>>, m: int)
    requires
        0 <= m,
    ensures
        piece_fold(descs, st, ps, m).options_ended == st.options_ended,
    decreases m,
{
    if m > 0 {
        lemma_piece_fold_oe(descs, st, ps, m - 1);
    }
}

proof fn lemma_norm_fold_no_marker_oe(descs: Seq<ArgView>, args: Seq<Seq<char>>, i: int)
    requires
        0 <= i <= args.len(),
        forall|j: int| 0 <= j < i ==> #[trigger] args[j] != ddash(),
    ensures
        !norm_fold(descs, args, i).options_ended,
    decreases i,
{
    if i > 0 {
        lemma_norm_fold_no_marker_oe(descs, args, i - 1);
        let st = norm_fold(descs, args, i - 1);
        let t = args[i - 1];
        assert(t != ddash());
        let pieces = if is_cluster(t, st.options_ended) {
            cluster_pieces(descs, t)
        } else {
            seq![t]
        };
        lemma_piece_fold_oe(descs, st, pieces, pieces.len() as int);
    }
}

proof fn lemma_norm_fold_prefix(descs: Seq<ArgView>, args: Seq<Seq<char>>, k: int, i: int)
    requires
        0 <= i <= k <= args.len(),
    ensures
        norm_fold(descs, args, i) == norm_fold(descs, args.subrange(0, k), i),
    decreases i,
{
    if i > 0 {
        lemma_norm_fold_prefix(descs, args, k, i - 1);
        assert(args.subrange(0, k)[i - 1] == args[i - 1]);
    }
}

proof fn lemma_norm_fold_after_marker(descs: Seq<ArgView>, args: Seq<Seq<char>>, m: int, i: int)
    requires
        0 <= m <= i <= args.len(),
        norm_fold(descs, args, m).options_ended,
        norm_fold(descs, args, m).pending.len() == 0,
    ensures
        norm_fold(descs, args, i).out == norm_fold(descs, args, m).out + args.subrange(m, i),
        norm_fold(descs, args, i).pending.len() == 0,
        norm_fold(descs, args, i).options_ended,
    decreases i - m,
{
    if i == m {
        assert(norm_fold(descs, args, i).out =~= norm_fold(descs, args, m).out + args.subrange(
            m,
            i,
        ));
    } else {
        lemma_norm_fold_after_marker(descs, args, m, i - 1);
        let st = norm_fold(descs, args, i - 1);
        let t = args[i - 1];
        assert(norm_fold(descs, args, i) == token_step(descs, st, t));
        assert(!is_cluster(t, st.options_ended));
        assert(token_step(descs, st, t) == piece_fold(descs, st, seq![t], 1));
        assert(piece_fold(descs, st, seq![t], 0) == st);
        assert(piece_fold(descs, st, seq![t], 1) == piece_step(descs, st, t));
        assert(args.subrange(m, i).drop_last() =~= args.subrange(m, i - 1));
        assert(norm_fold(descs, args, i).out =~= norm_fold(descs, args, m).out + args.subrange(
            m,
            i,
        ));
    }
}

/// End of options at the normalizer: the first standalone `--` is
/// dropped from the canonical stream, and every later raw token
/// appears in it verbatim and in order — never split as a cluster,
/// never joined as a pending option's value, never comma-split.
pub proof fn lemma_end_of_options_verbatim(descs: Seq<ArgView>, args: Seq<Seq<char>>, k: int)
    requires
        0 <= k < args.len(),
        args[k] == ddash(),
        forall|j: int| 0 <= j < k ==> #[trigger] args[j] != ddash(),
    ensures
        normalize_spec(args, descs) == normalize_spec(args.subrange(0, k), descs) + args.subrange(
            k + 1,
            args.len() as int,
        ),
{
    let n = args.len() as int;
    let prefix = args.subrange(0, k);
    lemma_norm_fold_no_marker_oe(descs, args, k);
    let stk = norm_fold(descs, args, k);
    assert(norm_fold(descs, args, k + 1) == token_step(descs, stk, args[k]));
    let stm = norm_fold(descs, args, k + 1);
    assert(stm.out == flush_pending(stk).out);
    assert(stm.pending.len() == 0 && stm.options_ended);
    lemma_norm_fold_after_marker(descs, args, k + 1, n);
    lemma_norm_fold_prefix(descs, args, k, k);
    assert(norm_fold(descs, prefix, k) == stk);
    assert(normalize_spec(prefix, descs) == flush_pending(stk).out);
    assert(args.subrange(k + 1, n) =~= args.subrange(k + 1, n));
    assert(normalize_spec(args, descs) =~= normalize_spec(prefix, descs) + args.subrange(
        k + 1,
        n,
    ));
}

/// A flag holds at most one synthesized `"true"`: however often a
/// no-value descriptor matches during the scan, a fresh descriptor
/// ends the scan with at most one value, and that value is the
/// literal `"true"`.
pub proof fn lemma_flag_single_true(
    a: ArgView,
    positions: Seq<ArgPosition>,
    args: Seq<Seq<char>>,
    i: int,
)
    requires
        a.value_type == ValueKind::NoValue,
        a.position is None,
        a.value.len() == 0,
        0 <= i <= args.len(),
        forall|j: int|
            0 <= j < args.len() ==> (spec_matches(a, #[trigger] args[j]) ==> !args[j].contains(
                '=',
            )),
    ensures
        ({
            let v = bind_fold(a, positions, args.len() as int, args, i).value;
            v.len() <= 1 && (v.len() == 1 ==> v[0] == true_lit())
        }),
    decreases i,
{
    if i > 0 {
        lemma_flag_single_true(a, positions, args, i - 1);
        let n = args.len() as int;
        let st = bind_fold(a, positions, n, args, i - 1);
        assert(bind_fold(a, positions, n, args, i) == bind_step(
            a,
            positions,
            n,
            i - 1,
            args[i - 1],
            st,
        ));
        if st.value.len() == 1 && st.value[0] == true_lit() {
            assert(st.value.contains(true_lit()));
        }
    }
}

} // verus!
