//! The dispatch engine's decision logic.
//!
//! Fanning an action out to every backend happens outside the library: one
//! concurrent unit of work per backend, each reporting a `(name, outcome)`
//! pair into a shared channel, a failure in one never touching its
//! siblings.  The collected pairs come here: failures are separated out as
//! warnings, and the survivors are ordered by the configured backend
//! priority with a stable merge.

use vstd::prelude::*;

use crate::seqs::{find_index, lemma_find_index_at, lemma_find_index_props};
use crate::text::str_eq;

verus! {

/// The successful outcomes, in arrival order.
pub open spec fn ok_results<T>(s: Seq<(String, Result<T, String>)>) -> Seq<(String, T)>
    decreases s.len(),
{
    if s.len() == 0 {
        Seq::empty()
    } else {
        let rest = ok_results(s.drop_first());
        match s[0].1 {
            Ok(t) => seq![(s[0].0, t)] + rest,
            Err(_) => rest,
        }
    }
}

/// The failed outcomes, in arrival order: one warning each.
pub open spec fn err_results<T>(s: Seq<(String, Result<T, String>)>) -> Seq<(String, String)>
    decreases s.len(),
{
    if s.len() == 0 {
        Seq::empty()
    } else {
        let rest = err_results(s.drop_first());
        match s[0].1 {
            Ok(_) => rest,
            Err(e) => seq![(s[0].0, e)] + rest,
        }
    }
}

/// Separates a dispatch's collected replies: the successes, to be merged
/// and shown, and the failures, each of which costs its backend this one
/// call and a warning, and nothing else — the other backends' outcomes are
/// exactly what they reported.
pub fn collect_results<T>(replies: Vec<(String, Result<T, String>)>) -> (r: (
    Vec<(String, T)>,
    Vec<(String, String)>,
))
    ensures
        r.0@ == ok_results(replies@),
        r.1@ == err_results(replies@),
{
    let ghost all = replies@;
    let mut rest = replies;
    let mut oks: Vec<(String, T)> = Vec::new();
    let mut errs: Vec<(String, String)> = Vec::new();
    while rest.len() > 0
        invariant
            ok_results(all) == oks@ + ok_results(rest@),
            err_results(all) == errs@ + err_results(rest@),
        decreases rest.len(),
    {
        let ghost r0 = rest@;
        let p = rest.remove(0);
        proof {
            assert(rest@ =~= r0.drop_first());
        }
        match p.1 {
            Ok(t) => {
                proof {
                    assert(ok_results(r0) == seq![(p.0, t)] + ok_results(rest@));
                    assert(oks@ + (seq![(p.0, t)] + ok_results(rest@)) =~= (oks@ + seq![
                        (p.0, t),
                    ]) + ok_results(rest@));
                }
                oks.push((p.0, t));
            },
            Err(e) => {
                proof {
                    assert(err_results(r0) == seq![(p.0, e)] + err_results(rest@));
                    assert(errs@ + (seq![(p.0, e)] + err_results(rest@)) =~= (errs@ + seq![
                        (p.0, e),
                    ]) + err_results(rest@));
                }
                errs.push((p.0, e));
            },
        }
    }
    proof {
        assert(oks@ + ok_results(rest@) =~= oks@);
        assert(errs@ + err_results(rest@) =~= errs@);
    }
    (oks, errs)
}

/// The priority rank of a backend name: its first position in the
/// configured priority list, or the list's length for a name the list does
/// not hold, which sorts after every listed backend.
pub open spec fn prio_rank(prio: Seq<Seq<char>>, name: Seq<char>) -> nat {
    match find_index(prio, |p: Seq<char>| p == name) {
        Some(i) => i,
        None => prio.len() as nat,
    }
}

/// The entries ranked exactly `k`, in their original order.
pub open spec fn rank_bucket<T>(prio: Seq<Seq<char>>, s: Seq<(String, T)>, k: nat) -> Seq<
    (String, T),
>
    decreases s.len(),
{
    if s.len() == 0 {
        Seq::empty()
    } else {
        let rest = rank_bucket(prio, s.drop_first(), k);
        if prio_rank(prio, s[0].0@) == k {
            seq![s[0]] + rest
        } else {
            rest
        }
    }
}

/// The entries ranked `k` or beyond, in their original order.
pub open spec fn rank_at_least<T>(prio: Seq<Seq<char>>, s: Seq<(String, T)>, k: nat) -> Seq<
    (String, T),
>
    decreases s.len(),
{
    if s.len() == 0 {
        Seq::empty()
    } else {
        let rest = rank_at_least(prio, s.drop_first(), k);
        if prio_rank(prio, s[0].0@) >= k {
            seq![s[0]] + rest
        } else {
            rest
        }
    }
}

/// The buckets from rank `k` up, concatenated in rank order.
pub open spec fn buckets_from<T>(prio: Seq<Seq<char>>, s: Seq<(String, T)>, k: nat) -> Seq<
    (String, T),
>
    decreases prio.len() + 1 - k,
{
    if k > prio.len() {
        Seq::empty()
    } else {
        rank_bucket(prio, s, k) + buckets_from(prio, s, (k + 1) as nat)
    }
}

/// The stable priority order of a dispatch result: listed backends first,
/// by their position in the priority list, unlisted backends after them
/// all, entries of equal rank keeping their arrival order.
pub open spec fn prio_sorted<T>(prio: Seq<Seq<char>>, s: Seq<(String, T)>) -> Seq<(String, T)> {
    buckets_from(prio, s, 0)
}

proof fn lemma_rank_at_least_zero<T>(prio: Seq<Seq<char>>, s: Seq<(String, T)>)
    ensures
        rank_at_least(prio, s, 0) == s,
    decreases s.len(),
{
    if s.len() > 0 {
        lemma_rank_at_least_zero(prio, s.drop_first());
        assert(seq![s[0]] + s.drop_first() =~= s);
    }
}

/// Beyond every listed rank only the unlisted remain, all of one rank: the
/// remainder after the listed buckets is the final bucket, order kept.
proof fn lemma_rank_at_least_last<T>(prio: Seq<Seq<char>>, s: Seq<(String, T)>)
    ensures
        rank_at_least(prio, s, prio.len() as nat) == rank_bucket(prio, s, prio.len() as nat),
    decreases s.len(),
{
    if s.len() > 0 {
        lemma_rank_at_least_last(prio, s.drop_first());
        assert(prio_rank(prio, s[0].0@) <= prio.len()) by {
            lemma_find_index_props(prio, |p: Seq<char>| p == s[0].0@);
        }
    }
}

proof fn lemma_rank_at_least_all<T>(prio: Seq<Seq<char>>, s: Seq<(String, T)>, k: nat)
    ensures
        forall|i: int|
            0 <= i < rank_at_least(prio, s, k).len() ==> prio_rank(
                prio,
                (#[trigger] rank_at_least(prio, s, k)[i]).0@,
            ) >= k,
    decreases s.len(),
{
    if s.len() > 0 {
        lemma_rank_at_least_all(prio, s.drop_first(), k);
        let rest = rank_at_least(prio, s.drop_first(), k);
        if prio_rank(prio, s[0].0@) >= k {
            assert(forall|i: int|
                0 <= i < rest.len() ==> (seq![s[0]] + rest)[i + 1] == rest[i]);
        }
    }
}

/// Filtering at rank `k` commutes with keeping ranks `k` and beyond.
proof fn lemma_bucket_split<T>(prio: Seq<Seq<char>>, s: Seq<(String, T)>, k: nat)
    ensures
        rank_bucket(prio, rank_at_least(prio, s, k), k) == rank_bucket(prio, s, k),
        rank_at_least(prio, rank_at_least(prio, s, k), (k + 1) as nat) == rank_at_least(
            prio,
            s,
            (k + 1) as nat,
        ),
    decreases s.len(),
{
    if s.len() > 0 {
        lemma_bucket_split(prio, s.drop_first(), k);
        let rest_al = rank_at_least(prio, s.drop_first(), k);
        if prio_rank(prio, s[0].0@) >= k {
            let al = seq![s[0]] + rest_al;
            assert(rank_at_least(prio, s, k) == al);
            assert(al[0] == s[0]);
            assert(al.drop_first() =~= rest_al);
        }
    }
}

fn prio_index(priority: &Vec<String>, name: &String) -> (r: usize)
    ensures
        r as nat == prio_rank(priority@.map_values(|s: String| s@), name@),
{
    let ghost pv = priority@.map_values(|s: String| s@);
    let ghost pred = |p: Seq<char>| p == name@;
    let n = priority.len();
    let mut i: usize = 0;
    while i < n
        invariant
            i <= n,
            forall|j: int| 0 <= j < i ==> !pred(#[trigger] pv[j]),
        decreases n - i,
    {
        if str_eq(priority[i].as_str(), name.as_str()) {
            proof {
                lemma_find_index_at(pv, pred, i as int);
            }
            return i;
        }
        i = i + 1;
    }
    proof {
        lemma_find_index_props(pv, pred);
        if find_index(pv, pred) is Some {
            assert(pred(pv[find_index(pv, pred).unwrap() as int]));
        }
    }
    n
}

/// Reorders a dispatch result by the configured backend priority: a stable
/// merge, so entries of equal rank keep the order the dispatcher returned
/// them in.
pub fn sort_by_priority<T>(priority: &Vec<String>, v: &mut Vec<(String, T)>)
    ensures
        final(v)@ == prio_sorted(priority@.map_values(|s: String| s@), old(v)@),
{
    let ghost pv = priority@.map_values(|s: String| s@);
    let ghost s = v@;
    let np = priority.len();
    let mut out: Vec<(String, T)> = Vec::new();
    let mut k: usize = 0;
    proof {
        lemma_rank_at_least_zero(pv, s);
    }
    while k < np
        invariant
            k <= np,
            prio_sorted(pv, s) == out@ + buckets_from(pv, s, k as nat),
            v@ == rank_at_least(pv, s, k as nat),
        decreases np - k,
    {
        let ghost vk = v@;
        let ghost out0 = out@;
        proof {
            lemma_rank_at_least_all(pv, s, k as nat);
        }
        let mut rest: Vec<(String, T)> = Vec::new();
        core::mem::swap(v, &mut rest);
        let mut keep: Vec<(String, T)> = Vec::new();
        while rest.len() > 0
            invariant
                out@.len() >= out0.len(),
                out@.take(out0.len() as int) == out0,
                forall|i: int|
                    0 <= i < rest@.len() ==> prio_rank(pv, (#[trigger] rest@[i]).0@) >= k as nat,
                rank_bucket(pv, vk, k as nat) == out@.skip(out0.len() as int) + rank_bucket(
                    pv,
                    rest@,
                    k as nat,
                ),
                rank_at_least(pv, vk, (k + 1) as nat) == keep@ + rank_at_least(
                    pv,
                    rest@,
                    (k + 1) as nat,
                ),
            decreases rest.len(),
        {
            let ghost r0 = rest@;
            let p = rest.remove(0);
            proof {
                assert(rest@ =~= r0.drop_first());
            }
            let rank = prio_index(priority, &p.0);
            if rank == k {
                proof {
                    assert(rank_bucket(pv, r0, k as nat) == seq![p] + rank_bucket(
                        pv,
                        rest@,
                        k as nat,
                    ));
                    assert((out@.push(p)).take(out0.len() as int) =~= out@.take(
                        out0.len() as int,
                    ));
                    assert((out@.push(p)).skip(out0.len() as int) =~= out@.skip(
                        out0.len() as int,
                    ).push(p));
                    assert(out@.skip(out0.len() as int) + (seq![p] + rank_bucket(
                        pv,
                        rest@,
                        k as nat,
                    )) =~= out@.skip(out0.len() as int).push(p) + rank_bucket(
                        pv,
                        rest@,
                        k as nat,
                    ));
                }
                out.push(p);
            } else {
                proof {
                    assert(prio_rank(pv, r0[0].0@) >= k as nat);
                    assert(prio_rank(pv, p.0@) >= (k + 1) as nat);
                    assert(rank_at_least(pv, r0, (k + 1) as nat) == seq![p] + rank_at_least(
                        pv,
                        rest@,
                        (k + 1) as nat,
                    ));
                    assert(keep@ + (seq![p] + rank_at_least(pv, rest@, (k + 1) as nat)) =~= (keep@
                        + seq![p]) + rank_at_least(pv, rest@, (k + 1) as nat));
                }
                keep.push(p);
            }
        }
        proof {
            assert(rank_bucket(pv, rest@, k as nat) =~= Seq::<(String, T)>::empty());
            assert(rank_at_least(pv, rest@, (k + 1) as nat) =~= Seq::<(String, T)>::empty());
            assert(out@.skip(out0.len() as int) + Seq::<(String, T)>::empty() =~= out@.skip(
                out0.len() as int,
            ));
            assert(keep@ + Seq::<(String, T)>::empty() =~= keep@);
            assert(out@ =~= out0 + out@.skip(out0.len() as int));
            lemma_bucket_split(pv, s, k as nat);
            assert(out@ == out0 + rank_bucket(pv, s, k as nat));
            assert(keep@ == rank_at_least(pv, s, (k + 1) as nat));
            assert(out0 + (rank_bucket(pv, s, k as nat) + buckets_from(pv, s, (k + 1) as nat))
                =~= (out0 + rank_bucket(pv, s, k as nat)) + buckets_from(pv, s, (k + 1) as nat));
        }
        core::mem::swap(v, &mut keep);
        k = k + 1;
    }
    proof {
        lemma_rank_at_least_last(pv, s);
        assert(buckets_from(pv, s, np as nat) == rank_bucket(pv, s, np as nat) + buckets_from(
            pv,
            s,
            (np + 1) as nat,
        ));
        assert(rank_bucket(pv, s, np as nat) + Seq::<(String, T)>::empty() =~= rank_bucket(
            pv,
            s,
            np as nat,
        ));
    }
    out.append(v);
    core::mem::swap(v, &mut out);
}

} // verus!
