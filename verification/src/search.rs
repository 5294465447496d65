//! Ranking and filtering of search results.
//!
//! A community-index query comes back as a scored result list. The engine
//! ranks it by descending popularity, keeps the first five, probes each
//! survivor for a compatible bundle artifact (one upstream round-trip per
//! candidate, performed by the caller), and presents only the candidates
//! that passed the probe, in their ranked order.

use vstd::prelude::*;
use vstd::seq_lib::{to_multiset_build, to_multiset_insert};

verus! {

/// One community-index search result: package name, its reported version
/// text, and its popularity score mapped to an order-preserving integer key.
pub struct Candidate {
    pub name: Vec<u8>,
    pub version: Vec<u8>,
    pub popularity_key: u64,
}

/// The mathematical image of a `Candidate`.
pub ghost struct CandidateView {
    pub name: Seq<u8>,
    pub version: Seq<u8>,
    pub popularity_key: u64,
}

impl View for Candidate {
    type V = CandidateView;

    open spec fn view(&self) -> CandidateView {
        CandidateView {
            name: self.name@,
            version: self.version@,
            popularity_key: self.popularity_key,
        }
    }
}

/// The views of a candidate sequence.
pub open spec fn candidate_views(s: Seq<Candidate>) -> Seq<CandidateView> {
    s.map_values(|c: Candidate| c@)
}

/// Ranked: popularity keys never increase along the sequence.
pub open spec fn sorted_by_popularity(s: Seq<CandidateView>) -> bool {
    forall|i: int, j: int|
        0 <= i < j < s.len() ==> #[trigger] s[i].popularity_key >= #[trigger] s[j].popularity_key
}

/// The subsequence of `c` whose flag is set, in order.
pub open spec fn flagged<V>(c: Seq<V>, f: Seq<bool>) -> Seq<V>
    decreases c.len(),
{
    if c.len() == 0 {
        Seq::empty()
    } else if f[0] {
        seq![c[0]] + flagged(c.skip(1), f.skip(1))
    } else {
        flagged(c.skip(1), f.skip(1))
    }
}

/// Insert a candidate into a ranked sequence, keeping the ranking.
fn insert_ranked(out: &mut Vec<Candidate>, c: Candidate)
    requires
        sorted_by_popularity(candidate_views(old(out)@)),
    ensures
        sorted_by_popularity(candidate_views(final(out)@)),
        candidate_views(final(out)@).to_multiset() == candidate_views(
            old(out)@,
        ).to_multiset().insert(c@),
{
    let ghost cv = c@;
    let mut j: usize = 0;
    let mut found = false;
    while !found && j < out.len()
        invariant
            j <= out.len(),
            c@ == cv,
            out@ == old(out)@,
            found ==> j < out@.len() && candidate_views(out@)[j as int].popularity_key
                < cv.popularity_key,
            forall|k: int|
                0 <= k < j ==> candidate_views(out@)[k].popularity_key >= cv.popularity_key,
        decreases out.len() - j + if found { 0int } else { 1int },
    {
        proof {
            assert(candidate_views(out@)[j as int] == out@[j as int]@);
        }
        if out[j].popularity_key < c.popularity_key {
            found = true;
        } else {
            j = j + 1;
        }
    }
    let ghost old_views = candidate_views(out@);
    out.insert(j, c);
    proof {
        assert(candidate_views(out@) =~= old_views.insert(j as int, cv));
        to_multiset_insert(old_views, j as int, cv);
        let nv = candidate_views(out@);
        assert forall|i1: int, i2: int|
            0 <= i1 < i2 < nv.len() implies #[trigger] nv[i1].popularity_key
            >= #[trigger] nv[i2].popularity_key by {
            if i2 < j {
            } else if i1 < j && i2 == j {
                assert(nv[i1] == old_views[i1]);
            } else if i1 == j {
                assert(nv[i2] == old_views[i2 - 1]);
            } else if i1 < j {
                assert(nv[i1] == old_views[i1]);
                assert(nv[i2] == old_views[i2 - 1]);
            } else {
                assert(nv[i1] == old_views[i1 - 1]);
                assert(nv[i2] == old_views[i2 - 1]);
            }
        }
    }
}

/// Rank the results by descending popularity. Ties keep no particular
/// order; the result holds exactly the given candidates.
pub fn rank_by_popularity(v: Vec<Candidate>) -> (r: Vec<Candidate>)
    ensures
        sorted_by_popularity(candidate_views(r@)),
        candidate_views(r@).to_multiset() == candidate_views(v@).to_multiset(),
{
    let mut v = v;
    let ghost orig = candidate_views(v@);
    let mut out: Vec<Candidate> = Vec::new();
    proof {
        broadcast use vstd::seq_lib::group_to_multiset_ensures;

        assert(candidate_views(out@) =~= Seq::<CandidateView>::empty());
    }
    while v.len() > 0
        invariant
            sorted_by_popularity(candidate_views(out@)),
            candidate_views(out@).to_multiset().add(candidate_views(v@).to_multiset())
                == orig.to_multiset(),
        decreases v.len(),
    {
        let ghost before = candidate_views(v@);
        let x = v.pop().unwrap();
        proof {
            assert(before.drop_last() =~= candidate_views(v@));
            assert(before =~= candidate_views(v@).push(x@));
            to_multiset_build(candidate_views(v@), x@);
        }
        insert_ranked(&mut out, x);
        proof {
            broadcast use vstd::multiset::group_multiset_axioms;

            assert(candidate_views(out@).to_multiset().add(candidate_views(v@).to_multiset())
                =~= orig.to_multiset());
        }
    }
    proof {
        broadcast use vstd::multiset::group_multiset_axioms;
        broadcast use vstd::seq_lib::group_to_multiset_ensures;

        assert(candidate_views(v@) =~= Seq::<CandidateView>::empty());
        assert(candidate_views(out@).to_multiset() =~= orig.to_multiset());
    }
    out
}

/// Keep only the first `n` candidates: the shortlist that is probed.
pub fn take_first(v: Vec<Candidate>, n: usize) -> (r: Vec<Candidate>)
    ensures
        r@ == if v@.len() <= n {
            v@
        } else {
            v@.subrange(0, n as int)
        },
{
    let mut v = v;
    if v.len() <= n {
        proof {
            assert(v@.subrange(0, v@.len() as int) =~= v@);
        }
        return v;
    }
    v.truncate(n);
    v
}

/// Keep exactly the candidates whose probe found a compatible artifact, in
/// their original relative order.
pub fn filter_by_probe(v: Vec<Candidate>, flags: &Vec<bool>) -> (r: Vec<Candidate>)
    requires
        v@.len() == flags@.len(),
    ensures
        candidate_views(r@) == flagged(candidate_views(v@), flags@),
{
    let ghost all = candidate_views(v@);
    let ghost fall = flags@;
    let mut v = v;
    let mut r: Vec<Candidate> = Vec::new();
    let mut i: usize = 0;
    let total: usize = flags.len();
    proof {
        assert(all.skip(0) =~= all);
        assert(fall.skip(0) =~= fall);
        assert(candidate_views(r@) + flagged(all, fall) =~= flagged(all, fall));
    }
    while v.len() > 0
        invariant
            fall == flags@,
            all.len() == fall.len(),
            total == all.len(),
            i <= total,
            i + v@.len() == total,
            candidate_views(v@) == all.skip(i as int),
            candidate_views(r@) + flagged(all.skip(i as int), fall.skip(i as int)) == flagged(
                all,
                fall,
            ),
        decreases v.len(),
    {
        let x = v.remove(0);
        let keep = flags[i];
        proof {
            assert(candidate_views(v@) =~= all.skip(i as int).skip(1));
            assert(all.skip(i as int).skip(1) =~= all.skip(i + 1));
            assert(fall.skip(i as int).skip(1) =~= fall.skip(i + 1));
            assert(all.skip(i as int)[0] == x@);
            assert(fall.skip(i as int)[0] == fall[i as int]);
        }
        let ghost rv = candidate_views(r@);
        if keep {
            r.push(x);
            proof {
                assert(candidate_views(r@) =~= rv.push(x@));
                assert(rv.push(x@) + flagged(all.skip(i + 1), fall.skip(i + 1)) =~= rv + (seq![
                    x@,
                ] + flagged(all.skip(i + 1), fall.skip(i + 1))));
            }
        }
        i = i + 1;
    }
    proof {
        assert(flagged(all.skip(all.len() as int), fall.skip(fall.len() as int)) =~= Seq::<
            CandidateView,
        >::empty());
        assert(candidate_views(r@) + Seq::<CandidateView>::empty() =~= candidate_views(r@));
    }
    r
}

} // verus!
