//! Artifact URL handling.
//!
//! A scraped artifact URL may carry checksum metadata as a query string or
//! fragment; snapshot identity must be checksum-independent, so the cleaner
//! cuts the URL at the first `?` or `#`.  An artifact href is resolved
//! against the listing base by joining `{base}/{name}/{href}`, cleaning the
//! result, and removing the dot segments a relative href leaves in the
//! path.  The transfer resolver is pure concatenation of the package base
//! and a snapshot entry.

use vstd::prelude::*;

use crate::listing::{copy_range, find_sub, lemma_spec_find, matches_at, spec_find};

verus! {

pub open spec fn pat_slash() -> Seq<u8> {
    seq![47u8]  // /
}

pub open spec fn pat_scheme_sep() -> Seq<u8> {
    seq![58u8, 47u8, 47u8]  // ://
}

pub open spec fn seg_dot() -> Seq<u8> {
    seq![46u8]  // .
}

pub open spec fn seg_dotdot() -> Seq<u8> {
    seq![46u8, 46u8]  // ..
}

pub open spec fn seg_views(s: Seq<Vec<u8>>) -> Seq<Seq<u8>> {
    s.map_values(|x: Vec<u8>| x@)
}

/// The parts of `s` between its `/` separators, in order; one part more
/// than there are separators.
pub open spec fn split_slash(s: Seq<u8>) -> Seq<Seq<u8>>
    decreases s.len() via split_slash_decreases
{
    match spec_find(s, pat_slash(), 0) {
        None => seq![s],
        Some(i) => seq![s.take(i)] + split_slash(s.skip(i + 1)),
    }
}

#[via_fn]
proof fn split_slash_decreases(s: Seq<u8>) {
    lemma_spec_find(s, pat_slash(), 0);
}

/// One step of dot-segment removal: `.` disappears, `..` also removes the
/// segment before it (nothing at the root), anything else stays.
pub open spec fn norm_step(acc: Seq<Seq<u8>>, seg: Seq<u8>) -> Seq<Seq<u8>> {
    if seg == seg_dot() {
        acc
    } else if seg == seg_dotdot() {
        if acc.len() > 0 {
            acc.drop_last()
        } else {
            acc
        }
    } else {
        acc.push(seg)
    }
}

pub open spec fn norm_from(segs: Seq<Seq<u8>>, i: int, acc: Seq<Seq<u8>>) -> Seq<Seq<u8>>
    decreases segs.len() - i when 0 <= i <= segs.len()
{
    if i == segs.len() {
        acc
    } else {
        norm_from(segs, i + 1, norm_step(acc, segs[i]))
    }
}

/// The path segments with dot segments removed; a trailing `.` or `..`
/// leaves a trailing separator behind.
pub open spec fn norm_segs(segs: Seq<Seq<u8>>) -> Seq<Seq<u8>> {
    let flat = norm_from(segs, 0, Seq::empty());
    if segs.len() > 0 && (segs.last() == seg_dot() || segs.last() == seg_dotdot()) {
        flat.push(Seq::empty())
    } else {
        flat
    }
}

/// The segments joined back with `/` separators, from position `i` on.
pub open spec fn join_from(segs: Seq<Seq<u8>>, i: int) -> Seq<u8>
    decreases segs.len() - i when 0 <= i <= segs.len()
{
    if i >= segs.len() {
        Seq::empty()
    } else if i == segs.len() - 1 {
        segs[i]
    } else {
        segs[i] + pat_slash() + join_from(segs, i + 1)
    }
}

/// The URL with the dot segments of its path removed: the part up to and
/// including the first `/` after the `://` is kept, and the path behind it
/// is split, normalized and joined again.  A URL without `://` or without a
/// path is returned unchanged.
pub open spec fn spec_remove_dots(u: Seq<u8>) -> Seq<u8> {
    match spec_find(u, pat_scheme_sep(), 0) {
        None => u,
        Some(ss) => match spec_find(u, pat_slash(), ss + 3) {
            None => u,
            Some(ps) => u.take(ps + 1) + join_from(norm_segs(split_slash(u.skip(ps + 1))), 0),
        },
    }
}

/// `spec_find` looks through a dropped prefix unchanged, up to the shift.
proof fn lemma_find_shift(s: Seq<u8>, pat: Seq<u8>, k: int, j: int)
    requires
        0 <= k,
        0 <= j,
        k + j <= s.len(),
    ensures
        spec_find(s, pat, k + j) == match spec_find(s.skip(k), pat, j) {
            None => None::<int>,
            Some(i) => Some(i + k),
        },
    decreases s.len() - k - j,
{
    assert(s.skip(k).len() == s.len() - k);
    if k + j + pat.len() > s.len() {
    } else {
        lemma_matches_at_shift(s, pat, k, j);
        if matches_at(s, pat, k + j) {
        } else {
            lemma_find_shift(s, pat, k, j + 1);
        }
    }
}

/// A match at `k + j` in `s` is a match at `j` in `s` without its first `k`
/// bytes.
spec fn matches_at_shift(s: Seq<u8>, pat: Seq<u8>, k: int, j: int) -> bool {
    matches_at(s, pat, k + j) == matches_at(s.skip(k), pat, j)
}

proof fn lemma_matches_at_shift(s: Seq<u8>, pat: Seq<u8>, k: int, j: int)
    requires
        0 <= k,
        0 <= j,
        k + j + pat.len() <= s.len(),
    ensures
        matches_at_shift(s, pat, k, j),
{
    if matches_at(s, pat, k + j) {
        assert forall|t: int| 0 <= t < pat.len() implies s.skip(k)[j + t] == pat[t] by {
            assert(s[k + j + t] == pat[t]);
        }
    }
    if matches_at(s.skip(k), pat, j) {
        assert forall|t: int| 0 <= t < pat.len() implies s[k + j + t] == pat[t] by {
            assert(s.skip(k)[j + t] == pat[t]);
        }
    }
}

/// Position of the first `?` or `#` at or after `i`, or the length.
pub open spec fn clean_end(u: Seq<u8>, i: int) -> int
    decreases u.len() - i when 0 <= i <= u.len()
{
    if i < u.len() && u[i] != 63 && u[i] != 35 {
        clean_end(u, i + 1)
    } else {
        i
    }
}

/// A cleaned URL: everything before the first `?` or `#`.
pub open spec fn spec_clean(u: Seq<u8>) -> Seq<u8> {
    u.subrange(0, clean_end(u, 0))
}

pub proof fn lemma_clean_end(u: Seq<u8>, i: int)
    requires
        0 <= i <= u.len(),
    ensures
        i <= clean_end(u, i) <= u.len(),
        forall|j: int| i <= j < clean_end(u, i) ==> u[j] != 63 && u[j] != 35,
    decreases u.len() - i,
{
    if i < u.len() && u[i] != 63 && u[i] != 35 {
        lemma_clean_end(u, i + 1);
    }
}

/// On a string free of `?` and `#` the cut sits at the very end.
proof fn lemma_clean_end_all_clean(u: Seq<u8>, i: int)
    requires
        0 <= i <= u.len(),
        forall|j: int| 0 <= j < u.len() ==> u[j] != 63 && u[j] != 35,
    ensures
        clean_end(u, i) == u.len(),
    decreases u.len() - i,
{
    if i < u.len() {
        lemma_clean_end_all_clean(u, i + 1);
    }
}

/// The URL cleaner is idempotent: cleaning an already-clean URL changes
/// nothing, so snapshot identity does not depend on how often a URL passes
/// through the cleaner.
pub proof fn lemma_clean_idempotent(u: Seq<u8>)
    ensures
        spec_clean(spec_clean(u)) == spec_clean(u),
{
    lemma_clean_end(u, 0);
    let c = spec_clean(u);
    lemma_clean_end_all_clean(c, 0);
    assert(spec_clean(c) =~= c);
}

/// Cut the URL at the first `?` or `#`, dropping checksum metadata.
pub fn clean_url(u: &Vec<u8>) -> (r: Vec<u8>)
    ensures
        r@ == spec_clean(u@),
{
    let mut e: usize = 0;
    while e < u.len() && u[e] != 63 && u[e] != 35
        invariant
            0 <= e <= u.len(),
            clean_end(u@, 0) == clean_end(u@, e as int),
        decreases u.len() - e,
    {
        e = e + 1;
    }
    let mut r: Vec<u8> = Vec::new();
    let mut t: usize = 0;
    while t < e
        invariant
            0 <= t <= e <= u.len(),
            r@ == u@.subrange(0, t as int),
        decreases e - t,
    {
        proof {
            assert(u@.subrange(0, (t + 1) as int) =~= u@.subrange(0, t as int).push(u@[t as int]));
        }
        r.push(u[t]);
        t = t + 1;
    }
    r
}

/// The URL under which an artifact href on the package's listing page is
/// fetched: `{base}/{name}/{href}`, cleaned and with the dot segments a
/// relative href leaves behind removed.
pub open spec fn spec_resolved(base: Seq<u8>, name: Seq<u8>, href: Seq<u8>) -> Seq<u8> {
    spec_remove_dots(spec_clean(base + seq![47u8] + name + seq![47u8] + href))
}

/// Join `{base}/{name}/{href}`, clean the result and remove dot segments.
pub fn resolve_artifact_url(base: &Vec<u8>, name: &Vec<u8>, href: &Vec<u8>) -> (r: Vec<u8>)
    ensures
        r@ == spec_resolved(base@, name@, href@),
{
    let mut joined: Vec<u8> = Vec::new();
    append_bytes(&mut joined, base);
    joined.push(47);
    append_bytes(&mut joined, name);
    joined.push(47);
    append_bytes(&mut joined, href);
    proof {
        assert(joined@ =~= base@ + seq![47u8] + name@ + seq![47u8] + href@);
    }
    let cleaned = clean_url(&joined);
    remove_dot_segments(&cleaned)
}

/// Append all bytes of `src` to `dst`.
pub fn append_bytes(dst: &mut Vec<u8>, src: &Vec<u8>)
    ensures
        final(dst)@ == old(dst)@ + src@,
{
    let mut t: usize = 0;
    while t < src.len()
        invariant
            0 <= t <= src.len(),
            dst@ == old(dst)@ + src@.subrange(0, t as int),
        decreases src.len() - t,
    {
        proof {
            assert(old(dst)@ + src@.subrange(0, (t + 1) as int) =~= (old(dst)@ + src@.subrange(
                0,
                t as int,
            )).push(src@[t as int]));
        }
        dst.push(src[t]);
        t = t + 1;
    }
    proof {
        assert(src@.subrange(0, src@.len() as int) =~= src@);
    }
}

/// The package base with a trailing separator guaranteed.
pub open spec fn spec_normalized_base(base: Seq<u8>) -> Seq<u8> {
    if base.len() > 0 && base[base.len() - 1] == 47 {
        base
    } else {
        base + seq![47u8]
    }
}

/// Guarantee a trailing `/` on the package base.
pub fn normalize_base(base: &Vec<u8>) -> (r: Vec<u8>)
    ensures
        r@ == spec_normalized_base(base@),
{
    let mut r: Vec<u8> = Vec::new();
    append_bytes(&mut r, base);
    proof {
        assert(r@ =~= base@);
    }
    if base.len() == 0 || base[base.len() - 1] != 47 {
        r.push(47);
        proof {
            assert(r@ =~= base@ + seq![47u8]);
        }
    }
    r
}

fn exec_split_slash(s: &Vec<u8>) -> (r: Vec<Vec<u8>>)
    ensures
        seg_views(r@) == split_slash(s@),
{
    let slash: Vec<u8> = vec![47];
    proof {
        assert(slash@ =~= pat_slash());
    }
    let _sl = s.len();
    let mut out: Vec<Vec<u8>> = Vec::new();
    let mut pos: usize = 0;
    proof {
        assert(s@.skip(0) =~= s@);
        assert(seg_views(out@) =~= Seq::<Seq<u8>>::empty());
        assert(split_slash(s@) =~= seg_views(out@) + split_slash(s@.skip(0)));
    }
    loop
        invariant
            0 <= pos <= s@.len(),
            split_slash(s@) == seg_views(out@) + split_slash(s@.skip(pos as int)),
        decreases s@.len() - pos,
    {
        let ghost prev = out@;
        proof {
            lemma_find_shift(s@, pat_slash(), pos as int, 0);
        }
        match find_sub(s, &slash, pos) {
            None => {
                let seg = copy_range(s, pos, s.len());
                out.push(seg);
                proof {
                    assert(s@.subrange(pos as int, s@.len() as int) =~= s@.skip(pos as int));
                    assert(split_slash(s@.skip(pos as int)) =~= seq![s@.skip(pos as int)]);
                    assert(seg_views(out@) =~= seg_views(prev).push(s@.skip(pos as int)));
                    assert(split_slash(s@) =~= seg_views(out@));
                }
                return out;
            },
            Some(i) => {
                proof {
                    lemma_spec_find(s@, pat_slash(), pos as int);
                }
                let seg = copy_range(s, pos, i);
                out.push(seg);
                proof {
                    let rest = s@.skip(pos as int);
                    assert(spec_find(rest, pat_slash(), 0) == Some(i - pos as int));
                    assert(rest.take(i - pos as int) =~= s@.subrange(pos as int, i as int));
                    assert(rest.skip(i - pos as int + 1) =~= s@.skip((i + 1) as int));
                    assert(split_slash(rest) =~= seq![s@.subrange(pos as int, i as int)]
                        + split_slash(s@.skip((i + 1) as int)));
                    assert(seg_views(out@) =~= seg_views(prev).push(
                        s@.subrange(pos as int, i as int),
                    ));
                    assert(seg_views(out@) + split_slash(s@.skip((i + 1) as int)) =~= seg_views(
                        prev,
                    ) + split_slash(s@.skip(pos as int)));
                }
                pos = i + 1;
            },
        }
    }
}

/// `true` exactly when the segment is `.` or `..`.
fn is_dot_seg(seg: &Vec<u8>) -> (r: (bool, bool))
    ensures
        r.0 == (seg@ == seg_dot()),
        r.1 == (seg@ == seg_dotdot()),
{
    let dot = seg.len() == 1 && seg[0] == 46;
    let dotdot = seg.len() == 2 && seg[0] == 46 && seg[1] == 46;
    proof {
        if dot {
            assert(seg@ =~= seg_dot());
        }
        if dotdot {
            assert(seg@ =~= seg_dotdot());
        }
    }
    (dot, dotdot)
}

fn exec_norm_segs(segs: &Vec<Vec<u8>>) -> (r: Vec<Vec<u8>>)
    ensures
        seg_views(r@) == norm_segs(seg_views(segs@)),
{
    let ghost g = seg_views(segs@);
    let mut stack: Vec<Vec<u8>> = Vec::new();
    proof {
        assert(seg_views(stack@) =~= Seq::<Seq<u8>>::empty());
    }
    let mut i: usize = 0;
    while i < segs.len()
        invariant
            0 <= i <= segs@.len(),
            norm_from(g, 0, Seq::empty()) == norm_from(g, i as int, seg_views(stack@)),
        decreases segs@.len() - i,
    {
        let ghost prev = stack@;
        let (dot, dotdot) = is_dot_seg(&segs[i]);
        if dot {
        } else if dotdot {
            if stack.len() > 0 {
                stack.pop();
                proof {
                    assert(seg_views(stack@) =~= seg_views(prev).drop_last());
                }
            }
        } else {
            let seg = copy_range(&segs[i], 0, segs[i].len());
            proof {
                assert(seg@ =~= g[i as int]);
            }
            stack.push(seg);
            proof {
                assert(seg_views(stack@) =~= seg_views(prev).push(g[i as int]));
            }
        }
        proof {
            assert(seg_views(stack@) =~= norm_step(seg_views(prev), g[i as int]));
        }
        i = i + 1;
    }
    if segs.len() > 0 {
        let (dot, dotdot) = is_dot_seg(&segs[segs.len() - 1]);
        if dot || dotdot {
            let ghost prev = stack@;
            stack.push(Vec::new());
            proof {
                assert(seg_views(stack@) =~= seg_views(prev).push(Seq::<u8>::empty()));
            }
        }
    }
    proof {
        assert(norm_segs(g) =~= seg_views(stack@));
    }
    stack
}

fn exec_join_slash(segs: &Vec<Vec<u8>>) -> (r: Vec<u8>)
    ensures
        r@ == join_from(seg_views(segs@), 0),
{
    let ghost g = seg_views(segs@);
    let mut out: Vec<u8> = Vec::new();
    proof {
        assert(out@ =~= Seq::<u8>::empty());
        assert(join_from(g, 0) =~= out@ + join_from(g, 0));
    }
    let mut i: usize = 0;
    while i < segs.len()
        invariant
            0 <= i <= segs@.len(),
            join_from(g, 0) == out@ + join_from(g, i as int),
        decreases segs@.len() - i,
    {
        let ghost prev = out@;
        append_bytes(&mut out, &segs[i]);
        proof {
            assert(out@ =~= prev + g[i as int]);
        }
        if i + 1 < segs.len() {
            out.push(47);
            proof {
                assert(out@ =~= prev + g[i as int] + pat_slash());
                assert(join_from(g, i as int) =~= g[i as int] + pat_slash() + join_from(
                    g,
                    i as int + 1,
                ));
                assert(join_from(g, 0) =~= out@ + join_from(g, i as int + 1));
            }
        } else {
            proof {
                assert(i == segs@.len() - 1);
                assert(join_from(g, i as int) =~= g[i as int]);
                assert(join_from(g, 0) =~= out@ + join_from(g, i as int + 1));
            }
        }
        i = i + 1;
    }
    proof {
        assert(join_from(g, segs@.len() as int) =~= Seq::<u8>::empty());
        assert(join_from(g, 0) =~= out@);
    }
    out
}

/// Remove the dot segments of the URL's path, as resolving a relative href
/// leaves them behind: `.` disappears and `..` also removes the segment
/// before it, never climbing past the path root.
pub fn remove_dot_segments(u: &Vec<u8>) -> (r: Vec<u8>)
    ensures
        r@ == spec_remove_dots(u@),
{
    let _ul = u.len();
    let sep: Vec<u8> = vec![58, 47, 47];
    let slash: Vec<u8> = vec![47];
    proof {
        assert(sep@ =~= pat_scheme_sep());
        assert(slash@ =~= pat_slash());
    }
    let ss = match find_sub(u, &sep, 0) {
        None => {
            let r = copy_range(u, 0, u.len());
            proof {
                assert(r@ =~= u@);
            }
            return r;
        },
        Some(ss) => ss,
    };
    proof {
        lemma_spec_find(u@, pat_scheme_sep(), 0);
    }
    let ps = match find_sub(u, &slash, ss + 3) {
        None => {
            let r = copy_range(u, 0, u.len());
            proof {
                assert(r@ =~= u@);
            }
            return r;
        },
        Some(ps) => ps,
    };
    proof {
        lemma_spec_find(u@, pat_slash(), (ss + 3) as int);
    }
    let tail = copy_range(u, ps + 1, u.len());
    proof {
        assert(tail@ =~= u@.skip((ps + 1) as int));
    }
    let segs = exec_split_slash(&tail);
    let normd = exec_norm_segs(&segs);
    let joined = exec_join_slash(&normd);
    let mut r = copy_range(u, 0, ps + 1);
    append_bytes(&mut r, &joined);
    proof {
        assert(u@.subrange(0, (ps + 1) as int) =~= u@.take((ps + 1) as int));
        assert(r@ =~= u@.take((ps + 1) as int) + join_from(
            norm_segs(split_slash(u@.skip((ps + 1) as int))),
            0,
        ));
    }
    r
}

/// The transfer resolver: mapping a snapshot entry back to its absolute
/// fetch URL is pure concatenation of the package base and the entry.
pub fn transfer_url(base: &Vec<u8>, entry: &Vec<u8>) -> (r: Vec<u8>)
    ensures
        r@ == base@ + entry@,
{
    let mut r: Vec<u8> = Vec::new();
    append_bytes(&mut r, base);
    append_bytes(&mut r, entry);
    proof {
        assert(r@ =~= base@ + entry@);
    }
    r
}

} // verus!
