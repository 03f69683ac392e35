//! Mapping a local absolute path to a destination-rooted relative address.
//!
//! Paths are compared and rebuilt by their components — the separator-free
//! runs of characters — never by raw string formatting, and the rebuilt
//! address always uses `/` whatever separator convention the host used.
use vstd::prelude::*;

use crate::catalog::FileError;
use crate::planner::views;

verus! {

/// A path separator: the host's convention may use either form.
pub open spec fn is_sep(c: char) -> bool {
    c == '/' || c == '\\'
}

/// Walks a path left to right: the components finished so far, and the
/// separator-free run currently open (empty if the last character was a
/// separator or nothing has been read).
pub open spec fn split_state(s: Seq<char>) -> (Seq<Seq<char>>, Seq<char>)
    decreases s.len(),
{
    if s.len() == 0 {
        (Seq::empty(), Seq::empty())
    } else {
        let prev = split_state(s.drop_last());
        let c = s.last();
        if is_sep(c) {
            if prev.1.len() == 0 {
                (prev.0, Seq::empty())
            } else {
                (prev.0.push(prev.1), Seq::empty())
            }
        } else {
            (prev.0, prev.1.push(c))
        }
    }
}

/// The components of a path: its maximal separator-free runs, in order.
/// Repeated separators and separators at either end contribute nothing.
pub open spec fn spec_components(s: Seq<char>) -> Seq<Seq<char>> {
    let st = split_state(s);
    if st.1.len() == 0 {
        st.0
    } else {
        st.0.push(st.1)
    }
}

/// Components joined with `/`, the wire form of a relative address.
pub open spec fn spec_join(parts: Seq<Seq<char>>) -> Seq<char>
    decreases parts.len(),
{
    if parts.len() == 0 {
        Seq::empty()
    } else if parts.len() == 1 {
        parts[0]
    } else {
        spec_join(parts.drop_last()) + seq!['/'] + parts.last()
    }
}

/// Contains no separator.
pub open spec fn sep_free(c: Seq<char>) -> bool {
    forall|k: int| 0 <= k < c.len() ==> !is_sep(#[trigger] c[k])
}

/// Every member is a nonempty separator-free run: what `spec_components`
/// always produces.
pub open spec fn wf_components(cs: Seq<Seq<char>>) -> bool {
    forall|k: int| 0 <= k < cs.len() ==> (#[trigger] cs[k]).len() > 0 && sep_free(cs[k])
}

proof fn lemma_split_state_wf(s: Seq<char>)
    ensures
        wf_components(split_state(s).0),
        sep_free(split_state(s).1),
    decreases s.len(),
{
    if s.len() > 0 {
        lemma_split_state_wf(s.drop_last());
        let prev = split_state(s.drop_last());
        let c = s.last();
        if is_sep(c) {
            if prev.1.len() > 0 {
                assert(wf_components(prev.0.push(prev.1))) by {
                    assert forall|k: int| 0 <= k < prev.0.len() + 1 implies (#[trigger] prev.0.push(
                        prev.1,
                    )[k]).len() > 0 && sep_free(prev.0.push(prev.1)[k]) by {
                        if k < prev.0.len() {
                            assert(prev.0.push(prev.1)[k] == prev.0[k]);
                        } else {
                            assert(prev.0.push(prev.1)[k] == prev.1);
                        }
                    }
                }
            }
        } else {
            assert(sep_free(prev.1.push(c))) by {
                assert forall|k: int| 0 <= k < prev.1.len() + 1 implies !is_sep(
                    #[trigger] prev.1.push(c)[k],
                ) by {
                    if k < prev.1.len() {
                        assert(prev.1.push(c)[k] == prev.1[k]);
                    }
                }
            }
        }
    }
}

/// The components of any path are nonempty separator-free runs.
pub proof fn lemma_components_wf(s: Seq<char>)
    ensures
        wf_components(spec_components(s)),
{
    lemma_split_state_wf(s);
    let st = split_state(s);
    if st.1.len() > 0 {
        assert forall|k: int| 0 <= k < st.0.len() + 1 implies (#[trigger] st.0.push(st.1)[k]).len()
            > 0 && sep_free(st.0.push(st.1)[k]) by {
            if k < st.0.len() {
                assert(st.0.push(st.1)[k] == st.0[k]);
            } else {
                assert(st.0.push(st.1)[k] == st.1);
            }
        }
    }
}

proof fn lemma_split_state_sep_free(s: Seq<char>)
    requires
        sep_free(s),
    ensures
        split_state(s) == (Seq::<Seq<char>>::empty(), s),
    decreases s.len(),
{
    if s.len() == 0 {
        assert(split_state(s).1 =~= s);
        assert(split_state(s) =~= (Seq::<Seq<char>>::empty(), s));
    } else {
        assert(sep_free(s.drop_last())) by {
            assert forall|k: int| 0 <= k < s.len() - 1 implies !is_sep(
                #[trigger] s.drop_last()[k],
            ) by {
                assert(s.drop_last()[k] == s[k]);
            }
        }
        lemma_split_state_sep_free(s.drop_last());
        assert(!is_sep(s.last()));
        assert(s.drop_last().push(s.last()) =~= s);
    }
}

/// A single nonempty separator-free run is its own one component.
proof fn lemma_components_single(t: Seq<char>)
    requires
        t.len() > 0,
        sep_free(t),
    ensures
        spec_components(t) == seq![t],
{
    lemma_split_state_sep_free(t);
    assert(Seq::<Seq<char>>::empty().push(t) =~= seq![t]);
}

/// Splitting distributes over joining two paths with a separator: the
/// components of `a + '/' + b` are those of `a` followed by those of `b`.
pub proof fn lemma_components_concat(a: Seq<char>, b: Seq<char>)
    ensures
        split_state(a + seq!['/'] + b) == (
            spec_components(a) + split_state(b).0,
            split_state(b).1,
        ),
        spec_components(a + seq!['/'] + b) == spec_components(a) + spec_components(b),
    decreases b.len(),
{
    let w = a + seq!['/'] + b;
    if b.len() == 0 {
        let wa = a + seq!['/'];
        assert(w =~= wa);
        assert(wa.drop_last() =~= a);
        assert(wa.last() == '/');
        assert(split_state(wa).0 == spec_components(a));
        assert(split_state(b) =~= (Seq::<Seq<char>>::empty(), Seq::<char>::empty()));
        assert(spec_components(a) + split_state(b).0 =~= spec_components(a));
        assert(split_state(w).1 =~= split_state(b).1);
        assert(split_state(w) =~= (spec_components(a) + split_state(b).0, split_state(b).1));
        assert(spec_components(a) + spec_components(b) =~= spec_components(a));
    } else {
        lemma_components_concat(a, b.drop_last());
        assert(w.drop_last() =~= a + seq!['/'] + b.drop_last());
        assert(w.last() == b.last());
        let prev = split_state(a + seq!['/'] + b.drop_last());
        let pb = split_state(b.drop_last());
        assert(prev == (spec_components(a) + pb.0, pb.1));
        let c = b.last();
        if is_sep(c) {
            if pb.1.len() == 0 {
                assert(split_state(w) =~= (spec_components(a) + split_state(b).0, split_state(
                    b,
                ).1));
            } else {
                assert((spec_components(a) + pb.0).push(pb.1) =~= spec_components(a) + pb.0.push(
                    pb.1,
                ));
                assert(split_state(w) =~= (spec_components(a) + split_state(b).0, split_state(
                    b,
                ).1));
            }
        } else {
            assert(split_state(w) =~= (spec_components(a) + split_state(b).0, split_state(b).1));
        }
    }
    let stb = split_state(b);
    if stb.1.len() == 0 {
        assert(spec_components(w) =~= spec_components(a) + spec_components(b));
    } else {
        assert((spec_components(a) + stb.0).push(stb.1) =~= spec_components(a) + stb.0.push(stb.1));
        assert(spec_components(w) =~= spec_components(a) + spec_components(b));
    }
}

/// Joining well-formed components and splitting again gives them back.
pub proof fn lemma_join_components(cs: Seq<Seq<char>>)
    requires
        wf_components(cs),
    ensures
        spec_components(spec_join(cs)) == cs,
    decreases cs.len(),
{
    if cs.len() == 0 {
        assert(spec_components(spec_join(cs)) =~= cs);
    } else if cs.len() == 1 {
        lemma_components_single(cs[0]);
        assert(seq![cs[0]] =~= cs);
    } else {
        assert(wf_components(cs.drop_last())) by {
            assert forall|k: int| 0 <= k < cs.len() - 1 implies (#[trigger] cs.drop_last()[k]).len()
                > 0 && sep_free(cs.drop_last()[k]) by {
                assert(cs.drop_last()[k] == cs[k]);
            }
        }
        lemma_join_components(cs.drop_last());
        lemma_components_concat(spec_join(cs.drop_last()), cs.last());
        lemma_components_single(cs.last());
        assert(cs.drop_last() + seq![cs.last()] =~= cs);
    }
}

/// Splits a path into its components.
pub fn path_components(s: &str) -> (r: Vec<String>)
    ensures
        views(r@) == spec_components(s@),
{
    let n = s.unicode_len();
    let mut out: Vec<String> = Vec::new();
    let mut run_start: Option<usize> = None;
    let mut i: usize = 0;
    proof {
        assert(s@.take(0) =~= Seq::<char>::empty());
        assert(views(out@) =~= Seq::<Seq<char>>::empty());
        assert(split_state(s@.take(0)) =~= (views(out@), Seq::<char>::empty()));
    }
    while i < n
        invariant
            0 <= i <= n,
            n == s@.len(),
            run_start matches Some(st) ==> st < i,
            split_state(s@.take(i as int)) == (
                views(out@),
                match run_start {
                    None => Seq::<char>::empty(),
                    Some(st) => s@.subrange(st as int, i as int),
                },
            ),
        decreases n - i,
    {
        let c = s.get_char(i);
        proof {
            assert(s@.take(i + 1).drop_last() =~= s@.take(i as int));
            assert(s@.take(i + 1).last() == s@[i as int]);
        }
        if c == '/' || c == '\\' {
            match run_start {
                Some(st) => {
                    let part = s.substring_char(st, i);
                    let owned = String::from_str(part);
                    proof {
                        assert(owned@ == s@.subrange(st as int, i as int));
                        assert(owned@.len() > 0);
                        crate::planner::lemma_views_push(out@, owned);
                    }
                    out.push(owned);
                    run_start = None;
                },
                None => {
                },
            }
        } else {
            match run_start {
                Some(st) => {
                    proof {
                        assert(s@.subrange(st as int, i as int).push(s@[i as int]) =~= s@.subrange(
                            st as int,
                            i + 1,
                        ));
                    }
                },
                None => {
                    proof {
                        assert(Seq::<char>::empty().push(s@[i as int]) =~= s@.subrange(
                            i as int,
                            i + 1,
                        ));
                    }
                    run_start = Some(i);
                },
            }
        }
        i += 1;
    }
    proof {
        assert(s@.take(n as int) =~= s@);
    }
    match run_start {
        Some(st) => {
            let part = s.substring_char(st, n);
            let owned = String::from_str(part);
            proof {
                assert(owned@ == s@.subrange(st as int, n as int));
                assert(owned@.len() > 0);
                crate::planner::lemma_views_push(out@, owned);
            }
            out.push(owned);
        },
        None => {
        },
    }
    out
}

/// Produces `file` relative to `source`: the components of `file` beyond
/// those of `source`, joined with `/`. A path that does not lie under the
/// source root is rejected, never silently mapped.
pub fn get_reative_path(file: &str, source: &str) -> (r: Result<String, FileError>)
    ensures
        r is Ok <==> spec_components(source@).is_prefix_of(spec_components(file@)),
        r matches Ok(rel) ==> rel@ == spec_join(
            spec_components(file@).skip(spec_components(source@).len() as int),
        ),
        r matches Err(e) ==> (e matches FileError::PathNotUnderRoot(p) && p@ == file@),
{
    let cf = path_components(file);
    let cs = path_components(source);
    let ghost fvs = views(cf@);
    let ghost svs = views(cs@);
    if cs.len() > cf.len() {
        proof {
            assert(!svs.is_prefix_of(fvs));
        }
        return Err(FileError::PathNotUnderRoot(String::from_str(file)));
    }
    let mut k: usize = 0;
    while k < cs.len()
        invariant
            0 <= k <= cs@.len(),
            cs@.len() <= cf@.len(),
            fvs == views(cf@),
            svs == views(cs@),
            fvs == spec_components(file@),
            svs == spec_components(source@),
            fvs.len() == cf@.len(),
            svs.len() == cs@.len(),
            forall|j: int| 0 <= j < k ==> svs[j] == fvs[j],
        decreases cs@.len() - k,
    {
        proof {
            crate::planner::lemma_views_index(cf@, k as int);
            crate::planner::lemma_views_index(cs@, k as int);
        }
        if !(cs[k] == cf[k]) {
            proof {
                assert(svs[k as int] != fvs[k as int]);
                assert(!svs.is_prefix_of(fvs)) by {
                    if svs.is_prefix_of(fvs) {
                        assert(svs[k as int] == fvs.subrange(0, svs.len() as int)[k as int]);
                    }
                }
            }
            return Err(FileError::PathNotUnderRoot(String::from_str(file)));
        }
        k += 1;
    }
    proof {
        assert(svs =~= fvs.subrange(0, svs.len() as int));
    }
    let ghost rest = fvs.skip(svs.len() as int);
    let mut rel = String::new();
    let mut idx: usize = k;
    proof {
        assert(rest.take(0) =~= Seq::<Seq<char>>::empty());
        assert(rel@ =~= Seq::<char>::empty());
    }
    while idx < cf.len()
        invariant
            k <= idx <= cf@.len(),
            k == views(cs@).len(),
            fvs == views(cf@),
            fvs.len() == cf@.len(),
            rest == fvs.skip(k as int),
            rel@ == spec_join(rest.take(idx - k)),
        decreases cf@.len() - idx,
    {
        proof {
            crate::planner::lemma_views_index(cf@, idx as int);
            let t = rest.take(idx - k);
            let t2 = rest.take(idx - k + 1);
            assert(t2.drop_last() =~= t);
            assert(t2.last() == fvs[idx as int]);
            reveal_strlit("/");
            assert("/"@ =~= seq!['/']);
        }
        if idx > k {
            rel.append("/");
        } else {
            proof {
                assert(rest.take(idx - k + 1).len() == 1);
            }
        }
        rel.append(cf[idx].as_str());
        proof {
            if idx > k {
                assert(rel@ =~= spec_join(rest.take(idx - k)) + seq!['/'] + fvs[idx as int]);
            }
        }
        idx += 1;
    }
    proof {
        assert(rest.take(cf@.len() - k) =~= rest);
    }
    Ok(rel)
}

/// Joins the destination root and a relative address with `/`: the remote
/// path of a mapped file or directory.
pub fn remote_path(destination: &str, relative: &str) -> (r: String)
    ensures
        r@ == destination@ + seq!['/'] + relative@,
{
    let mut out = String::from_str(destination);
    proof {
        reveal_strlit("/");
        assert("/"@ =~= seq!['/']);
    }
    out.append("/");
    out.append(relative);
    proof {
        assert(out@ =~= destination@ + seq!['/'] + relative@);
    }
    out
}

/// Round trip of the mapper: for a file under the source root, joining the
/// destination root with the file's mapped relative address yields a path
/// whose components are exactly the destination's components followed by
/// the file's components beyond the root — the intended remote address,
/// `/`-separated whatever the host convention was.
pub proof fn lemma_mapped_path_round_trip(file: Seq<char>, source: Seq<char>, destination: Seq<char>)
    requires
        spec_components(source).is_prefix_of(spec_components(file)),
    ensures
        ({
            let rest = spec_components(file).skip(spec_components(source).len() as int);
            spec_components(destination + seq!['/'] + spec_join(rest)) == spec_components(
                destination,
            ) + rest
        }),
{
    let rest = spec_components(file).skip(spec_components(source).len() as int);
    lemma_components_wf(file);
    assert(wf_components(rest)) by {
        assert forall|j: int| 0 <= j < rest.len() implies (#[trigger] rest[j]).len() > 0
            && sep_free(rest[j]) by {
            assert(rest[j] == spec_components(file)[j + spec_components(source).len()]);
        }
    }
    lemma_join_components(rest);
    lemma_components_concat(destination, spec_join(rest));
}

} // verus!
