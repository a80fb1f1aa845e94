use vstd::multiset::Multiset;
use vstd::prelude::*;

use crate::embedding::Embedding;
use crate::embedding::spec_sq_dist;

verus! {

/// Distance assigned to a gallery image with no embeddings at all: larger
/// than any distance two well-formed embeddings can realize, so such an
/// image always ranks behind every image with a face. The gallery keeps
/// the entry rather than dropping it, so the output has one result per
/// input image.
pub const DISTANCE_SENTINEL: i64 = 0x7fff_ffff_ffff_ffff;

/// One gallery image: its path and the embeddings of the faces found in
/// it (possibly none).
pub struct GalleryEntry {
    pub path: String,
    pub embeddings: Vec<Embedding>,
}

impl GalleryEntry {
    /// All embeddings are well-formed and of the given length, the
    /// dimension of the embedding model.
    pub open spec fn compatible(&self, query_len: nat) -> bool {
        forall|i: int|
            0 <= i < self.embeddings@.len() ==> (#[trigger] self.embeddings@[i]).wf()
                && self.embeddings@[i]@.len() == query_len
    }
}

/// One ranked image: its path and the smallest squared distance between
/// any of its embeddings and the query.
#[derive(Debug)]
pub struct MatchResult {
    pub path: String,
    pub distance: i64,
}

/// The smallest squared distance from the query to any embedding of the
/// list, starting from the sentinel: an empty list keeps the sentinel.
pub open spec fn spec_lowest_distance(query: Seq<i64>, embeddings: Seq<Embedding>) -> int
    decreases embeddings.len(),
{
    if embeddings.len() == 0 {
        DISTANCE_SENTINEL as int
    } else {
        let rest = spec_lowest_distance(query, embeddings.drop_last());
        let d = spec_sq_dist(embeddings.last()@, query);
        if d < rest {
            d
        } else {
            rest
        }
    }
}

/// Compare every embedding of every gallery image against the query and
/// keep, per image, the smallest squared distance. An image with no
/// embeddings gets [`DISTANCE_SENTINEL`]; the gallery's size is kept.
pub fn calculate_distances(
    compare_embeddings: &Embedding,
    images_with_embeddings: &Vec<GalleryEntry>,
) -> (results: Vec<MatchResult>)
    requires
        compare_embeddings.wf(),
        forall|i: int|
            0 <= i < images_with_embeddings@.len() ==> (
            #[trigger] images_with_embeddings@[i]).compatible(compare_embeddings@.len()),
    ensures
        results@.len() == images_with_embeddings@.len(),
        forall|i: int|
            0 <= i < results@.len() ==> (#[trigger] results@[i]).path@
                == images_with_embeddings@[i].path@ && results@[i].distance
                == spec_lowest_distance(
                compare_embeddings@,
                images_with_embeddings@[i].embeddings@,
            ),
{
    let mut results: Vec<MatchResult> = Vec::new();
    let mut i: usize = 0;
    while i < images_with_embeddings.len()
        invariant
            compare_embeddings.wf(),
            forall|k: int|
                0 <= k < images_with_embeddings@.len() ==> (
                #[trigger] images_with_embeddings@[k]).compatible(compare_embeddings@.len()),
            i <= images_with_embeddings@.len(),
            results@.len() == i,
            forall|k: int|
                0 <= k < i ==> (#[trigger] results@[k]).path@
                    == images_with_embeddings@[k].path@ && results@[k].distance
                    == spec_lowest_distance(
                    compare_embeddings@,
                    images_with_embeddings@[k].embeddings@,
                ),
        decreases images_with_embeddings@.len() - i,
    {
        let entry = &images_with_embeddings[i];
        let mut lowest_dist: i64 = DISTANCE_SENTINEL;
        let mut j: usize = 0;
        while j < entry.embeddings.len()
            invariant
                compare_embeddings.wf(),
                entry.compatible(compare_embeddings@.len()),
                j <= entry.embeddings@.len(),
                lowest_dist == spec_lowest_distance(
                    compare_embeddings@,
                    entry.embeddings@.subrange(0, j as int),
                ),
            decreases entry.embeddings@.len() - j,
        {
            let dist = crate::embedding::calculate_distance(
                &entry.embeddings[j],
                compare_embeddings,
            );
            proof {
                assert(entry.embeddings@.subrange(0, j + 1).drop_last() =~= entry.embeddings@.subrange(
                    0,
                    j as int,
                ));
            }
            if dist < lowest_dist {
                lowest_dist = dist;
            }
            j = j + 1;
        }
        proof {
            assert(entry.embeddings@.subrange(0, entry.embeddings@.len() as int)
                =~= entry.embeddings@);
        }
        let result = MatchResult { path: entry.path.clone(), distance: lowest_dist };
        results.push(result);
        i = i + 1;
    }
    results
}

/// The sentinel is a worst case: it is strictly larger than the distance
/// between any two well-formed embeddings of equal length, so an image
/// without embeddings ranks behind every image with a comparable face.
pub proof fn lemma_sentinel_exceeds_any_distance(a: &Embedding, b: &Embedding)
    requires
        a.wf(),
        b.wf(),
        a@.len() == b@.len(),
    ensures
        spec_sq_dist(a@, b@) < DISTANCE_SENTINEL,
{
    crate::embedding::lemma_sq_dist_bound(a@, b@);
}

pub open spec fn sorted_by_distance(s: Seq<MatchResult>) -> bool {
    forall|i: int, j: int| 0 <= i <= j < s.len() ==> s[i].distance <= s[j].distance
}

/// Where a stable ascending sort places `m` into the already ranked `s`:
/// after every result whose distance is not above `m`'s.
pub open spec fn spec_insert_by_distance(s: Seq<MatchResult>, m: MatchResult) -> Seq<MatchResult>
    decreases s.len(),
{
    if s.len() == 0 {
        seq![m]
    } else if s.last().distance <= m.distance {
        s.push(m)
    } else {
        spec_insert_by_distance(s.drop_last(), m).push(s.last())
    }
}

/// Stable insertion sort by ascending distance: results with equal
/// distances keep their relative input order.
pub open spec fn spec_rank_matches(s: Seq<MatchResult>) -> Seq<MatchResult>
    decreases s.len(),
{
    if s.len() == 0 {
        Seq::empty()
    } else {
        spec_insert_by_distance(spec_rank_matches(s.drop_last()), s.last())
    }
}

proof fn lemma_insert_by_distance_at(s: Seq<MatchResult>, m: MatchResult, pos: int)
    requires
        sorted_by_distance(s),
        0 <= pos <= s.len(),
        forall|k: int| pos <= k < s.len() ==> s[k].distance > m.distance,
        pos > 0 ==> s[pos - 1].distance <= m.distance,
    ensures
        spec_insert_by_distance(s, m) == s.insert(pos, m),
    decreases s.len(),
{
    if s.len() == 0 {
        assert(spec_insert_by_distance(s, m) =~= s.insert(pos, m));
    } else if s.last().distance <= m.distance {
        assert(pos == s.len());
        assert(spec_insert_by_distance(s, m) =~= s.insert(pos, m));
    } else {
        assert(pos < s.len());
        lemma_insert_by_distance_at(s.drop_last(), m, pos);
        assert(spec_insert_by_distance(s, m) == s.drop_last().insert(pos, m).push(s.last()));
        assert(s.drop_last().insert(pos, m).push(s.last()) =~= s.insert(pos, m));
    }
}

/// Inserting preserves the multiset of results.
pub proof fn lemma_insert_by_distance_multiset(s: Seq<MatchResult>, m: MatchResult)
    ensures
        spec_insert_by_distance(s, m).to_multiset() == s.to_multiset().insert(m),
    decreases s.len(),
{
    broadcast use vstd::seq_lib::group_to_multiset_ensures;

    if s.len() == 0 {
        assert(seq![m] =~= Seq::<MatchResult>::empty().push(m));
        assert(Seq::<MatchResult>::empty().push(m).to_multiset() =~= Multiset::<
            MatchResult,
        >::empty().insert(m));
        assert(s.to_multiset() =~= Multiset::<MatchResult>::empty());
    } else if s.last().distance <= m.distance {
    } else {
        lemma_insert_by_distance_multiset(s.drop_last(), m);
        assert(s =~= s.drop_last().push(s.last()));
        assert(s.to_multiset() =~= s.drop_last().to_multiset().insert(s.last()));
        assert(spec_insert_by_distance(s, m).to_multiset() =~= s.drop_last().to_multiset().insert(
            m,
        ).insert(s.last()));
        assert(s.drop_last().to_multiset().insert(m).insert(s.last())
            =~= s.drop_last().to_multiset().insert(s.last()).insert(m));
    }
}

/// Ranking preserves the multiset of results: every image appears in the
/// ranking exactly once.
pub proof fn lemma_rank_matches_permutes(s: Seq<MatchResult>)
    ensures
        spec_rank_matches(s).to_multiset() == s.to_multiset(),
        spec_rank_matches(s).len() == s.len(),
    decreases s.len(),
{
    broadcast use vstd::seq_lib::group_to_multiset_ensures;

    if s.len() == 0 {
        assert(spec_rank_matches(s).to_multiset() =~= s.to_multiset());
    } else {
        lemma_rank_matches_permutes(s.drop_last());
        lemma_insert_by_distance_multiset(spec_rank_matches(s.drop_last()), s.last());
        assert(s =~= s.drop_last().push(s.last()));
        assert(s.to_multiset() =~= s.drop_last().to_multiset().insert(s.last()));
    }
    assert(spec_rank_matches(s).to_multiset().len() == spec_rank_matches(s).len());
    assert(s.to_multiset().len() == s.len());
}

fn insert_by_distance(ranked: &mut Vec<MatchResult>, m: MatchResult)
    requires
        sorted_by_distance(old(ranked)@),
    ensures
        final(ranked)@ == spec_insert_by_distance(old(ranked)@, m),
        sorted_by_distance(final(ranked)@),
{
    let ghost s = ranked@;
    let ghost gm = m;
    let distance = m.distance;
    let mut pos: usize = ranked.len();
    while pos > 0 && ranked[pos - 1].distance > distance
        invariant
            pos <= ranked@.len(),
            ranked@ == s,
            sorted_by_distance(s),
            gm == m,
            distance == m.distance,
            forall|k: int| pos <= k < s.len() ==> s[k].distance > m.distance,
        decreases pos,
    {
        pos = pos - 1;
    }
    proof {
        lemma_insert_by_distance_at(s, m, pos as int);
    }
    ranked.insert(pos, m);
    assert(sorted_by_distance(ranked@)) by {
        assert forall|i: int, j: int|
            0 <= i <= j < ranked@.len() implies ranked@[i].distance <= ranked@[j].distance by {
            assert(ranked@ == s.insert(pos as int, gm));
        }
    }
}

/// Rank gallery results by ascending distance (most similar first), with
/// a stable sort: results with equal distances keep their input order.
pub fn rank_matches(results: Vec<MatchResult>) -> (ranked: Vec<MatchResult>)
    ensures
        ranked@ == spec_rank_matches(results@),
        sorted_by_distance(ranked@),
        ranked@.to_multiset() == results@.to_multiset(),
{
    let ghost input = results@;
    let mut remaining = results;
    let mut ranked: Vec<MatchResult> = Vec::new();
    while remaining.len() > 0
        invariant
            remaining@.len() <= input.len(),
            remaining@ == input.subrange(
                input.len() - remaining@.len(),
                input.len() as int,
            ),
            ranked@ == spec_rank_matches(input.subrange(0, input.len() - remaining@.len())),
            sorted_by_distance(ranked@),
        decreases remaining@.len(),
    {
        let ghost i = input.len() - remaining@.len();
        let ghost prefix = input.subrange(0, i);
        let m = remaining.remove(0);
        proof {
            assert(m == input[i]);
            assert(remaining@ =~= input.subrange(i + 1, input.len() as int));
            let next = input.subrange(0, i + 1);
            assert(next.drop_last() =~= prefix);
            assert(next.last() == input[i]);
        }
        insert_by_distance(&mut ranked, m);
    }
    proof {
        assert(input.subrange(0, input.len() as int) =~= input);
        lemma_rank_matches_permutes(input);
    }
    ranked
}

/// An image holding an embedding identical to the query has distance zero
/// and ranks first: ahead of every other image, in particular ahead of
/// one with no embeddings, which carries the sentinel distance.
pub proof fn lemma_exact_match_ranks_first(results: Seq<MatchResult>, exact: int)
    requires
        0 <= exact < results.len(),
        results[exact].distance == 0,
        forall|j: int| 0 <= j < results.len() ==> (#[trigger] results[j]).distance >= 0,
    ensures
        spec_rank_matches(results).len() == results.len(),
        spec_rank_matches(results)[0].distance == 0,
{
    broadcast use vstd::seq_lib::group_to_multiset_ensures;

    let ranked = spec_rank_matches(results);
    lemma_rank_matches_permutes(results);
    lemma_rank_matches_sorted(results);
    assert(results.contains(results[exact]));
    assert(results.to_multiset().count(results[exact]) > 0);
    assert(ranked.contains(results[exact]));
    let k = choose|k: int| 0 <= k < ranked.len() && ranked[k] == results[exact];
    assert(ranked[0].distance <= ranked[k].distance);
    assert(ranked.contains(ranked[0]));
    assert(ranked.to_multiset().count(ranked[0]) > 0);
    assert(results.contains(ranked[0]));
    let l = choose|l: int| 0 <= l < results.len() && results[l] == ranked[0];
    assert(results[l].distance >= 0);
}

/// The ranking a stable sort produces is ordered by ascending distance.
pub proof fn lemma_rank_matches_sorted(s: Seq<MatchResult>)
    ensures
        sorted_by_distance(spec_rank_matches(s)),
    decreases s.len(),
{
    if s.len() > 0 {
        lemma_rank_matches_sorted(s.drop_last());
        lemma_insert_by_distance_sorted(spec_rank_matches(s.drop_last()), s.last());
    }
}

/// Every element of an insertion result is the inserted one or an element
/// of the old sequence.
proof fn lemma_insert_by_distance_elems(s: Seq<MatchResult>, m: MatchResult)
    ensures
        forall|i: int|
            0 <= i < spec_insert_by_distance(s, m).len() ==> #[trigger] spec_insert_by_distance(
                s,
                m,
            )[i] == m || s.contains(spec_insert_by_distance(s, m)[i]),
    decreases s.len(),
{
    let result = spec_insert_by_distance(s, m);
    if s.len() == 0 {
    } else if s.last().distance <= m.distance {
        assert forall|i: int| 0 <= i < result.len() implies result[i] == m || s.contains(
            result[i],
        ) by {
            if i < s.len() {
                assert(s[i] == result[i]);
            }
        }
    } else {
        lemma_insert_by_distance_elems(s.drop_last(), m);
        let inner = spec_insert_by_distance(s.drop_last(), m);
        assert forall|i: int| 0 <= i < result.len() implies result[i] == m || s.contains(
            result[i],
        ) by {
            if i < inner.len() {
                assert(inner[i] == m || s.drop_last().contains(inner[i]));
                if s.drop_last().contains(inner[i]) {
                    let k = choose|k: int|
                        0 <= k < s.drop_last().len() && s.drop_last()[k] == inner[i];
                    assert(s[k] == inner[i]);
                }
            } else {
                assert(result[i] == s.last());
                assert(s[s.len() - 1] == s.last());
            }
        }
    }
}

proof fn lemma_insert_by_distance_sorted(s: Seq<MatchResult>, m: MatchResult)
    requires
        sorted_by_distance(s),
    ensures
        sorted_by_distance(spec_insert_by_distance(s, m)),
    decreases s.len(),
{
    let result = spec_insert_by_distance(s, m);
    if s.len() == 0 {
    } else if s.last().distance <= m.distance {
    } else {
        lemma_insert_by_distance_sorted(s.drop_last(), m);
        lemma_insert_by_distance_elems(s.drop_last(), m);
        let inner = spec_insert_by_distance(s.drop_last(), m);
        assert forall|i: int, j: int|
            0 <= i <= j < result.len() implies result[i].distance <= result[j].distance by {
            if j == inner.len() && i < inner.len() {
                assert(inner[i] == m || s.drop_last().contains(inner[i]));
                if s.drop_last().contains(inner[i]) {
                    let k = choose|k: int|
                        0 <= k < s.drop_last().len() && s.drop_last()[k] == inner[i];
                    assert(s[k].distance <= s.last().distance);
                }
            }
        }
    }
}

} // verus!
