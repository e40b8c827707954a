use crate::candidate_pipeline::candidate::PostCandidate;
use crate::candidate_pipeline::filter::FilterResult;
use crate::candidate_pipeline::query::ScoredPostsQuery;
use std::collections::HashSet;
use vstd::multiset::Multiset;
use vstd::prelude::*;

verus! {

broadcast use vstd::std_specs::hash::group_hash_axioms;

/// The tweet a candidate stands for: the retweeted tweet for a retweet,
/// the candidate's own tweet (its id read as an unsigned number) otherwise.
pub open spec fn dedup_key(c: PostCandidate) -> u64 {
    match c.retweeted_tweet_id {
        Some(retweeted_id) => retweeted_id,
        None => c.tweet_id as u64,
    }
}

/// The tweets that the candidates of `s` stand for.
pub open spec fn keys_of(s: Seq<PostCandidate>) -> Set<u64> {
    Set::new(|k: u64| exists|j: int| 0 <= j < s.len() && dedup_key(s[j]) == k)
}

/// Splits `s`, read from the front, into the candidates whose tweet has not
/// been seen before (first component) and those whose tweet has (second).
pub open spec fn dedup_split(s: Seq<PostCandidate>) -> (Seq<PostCandidate>, Seq<PostCandidate>)
    decreases s.len(),
{
    if s.len() == 0 {
        (Seq::empty(), Seq::empty())
    } else {
        let prefix = s.drop_last();
        let split = dedup_split(prefix);
        if keys_of(prefix).contains(dedup_key(s.last())) {
            (split.0, split.1.push(s.last()))
        } else {
            (split.0.push(s.last()), split.1)
        }
    }
}

/// The candidates that deduplication keeps.
pub open spec fn dedup_kept(s: Seq<PostCandidate>) -> Seq<PostCandidate> {
    dedup_split(s).0
}

/// The candidates that deduplication removes.
pub open spec fn dedup_removed(s: Seq<PostCandidate>) -> Seq<PostCandidate> {
    dedup_split(s).1
}

/// Adding one candidate adds exactly its tweet to the tweets seen.
pub proof fn lemma_keys_of_push(s: Seq<PostCandidate>, c: PostCandidate)
    ensures
        keys_of(s.push(c)) == keys_of(s).insert(dedup_key(c)),
{
    let t = s.push(c);
    assert forall|k: u64| keys_of(t).contains(k) implies #[trigger] keys_of(s).insert(
        dedup_key(c),
    ).contains(k) by {
        let j = choose|j: int| 0 <= j < t.len() && dedup_key(t[j]) == k;
        if j < s.len() {
            assert(s[j] == t[j]);
        }
    }
    assert forall|k: u64| keys_of(s).insert(dedup_key(c)).contains(k) implies #[trigger] keys_of(
        t,
    ).contains(k) by {
        if k == dedup_key(c) {
            assert(t[s.len() as int] == c);
        } else {
            let j = choose|j: int| 0 <= j < s.len() && dedup_key(s[j]) == k;
            assert(t[j] == s[j]);
        }
    }
    assert(keys_of(t) =~= keys_of(s).insert(dedup_key(c)));
}

/// Unfolds `dedup_split` at a prefix of `s` that grows by one candidate.
proof fn lemma_split_step(s: Seq<PostCandidate>, i: int)
    requires
        0 <= i < s.len(),
    ensures
        s.take(i + 1).drop_last() == s.take(i),
        s.take(i + 1).last() == s[i],
        keys_of(s.take(i + 1)) == keys_of(s.take(i)).insert(dedup_key(s[i])),
        dedup_split(s.take(i + 1)) == (if keys_of(s.take(i)).contains(dedup_key(s[i])) {
            (dedup_split(s.take(i)).0, dedup_split(s.take(i)).1.push(s[i]))
        } else {
            (dedup_split(s.take(i)).0.push(s[i]), dedup_split(s.take(i)).1)
        }),
{
    assert(s.take(i + 1).drop_last() =~= s.take(i));
    assert(s.take(i + 1) =~= s.take(i).push(s[i]));
    lemma_keys_of_push(s.take(i), s[i]);
}

/// No earlier candidate of `s` than the one at `j` stands for the same tweet.
pub open spec fn is_first_occurrence(s: Seq<PostCandidate>, j: int) -> bool {
    forall|l: int| 0 <= l < j ==> dedup_key(s[l]) != dedup_key(s[j])
}

/// No two candidates of `s` stand for the same tweet.
pub open spec fn keys_distinct(s: Seq<PostCandidate>) -> bool {
    forall|i: int, j: int|
        0 <= i < j < s.len() ==> dedup_key(#[trigger] s[i]) != dedup_key(#[trigger] s[j])
}

/// Every candidate is either kept or removed, never both and never lost:
/// the two outputs together hold the input, with multiplicity.
pub proof fn lemma_dedup_partition(s: Seq<PostCandidate>)
    ensures
        dedup_kept(s).len() + dedup_removed(s).len() == s.len(),
        dedup_kept(s).to_multiset().add(dedup_removed(s).to_multiset()) == s.to_multiset(),
    decreases s.len(),
{
    broadcast use vstd::seq_lib::group_to_multiset_ensures;

    if s.len() > 0 {
        let p = s.drop_last();
        lemma_dedup_partition(p);
        assert(s =~= p.push(s.last()));
        assert(dedup_kept(s).to_multiset().add(dedup_removed(s).to_multiset()) =~= s.to_multiset());
    } else {
        assert(s.to_multiset() =~= Multiset::empty());
        assert(dedup_kept(s).to_multiset().add(dedup_removed(s).to_multiset()) =~= Multiset::empty());
    }
}

/// Every tweet that the input stands for is still stood for by some kept
/// candidate, and the kept candidates stand for no other tweet.
pub proof fn lemma_dedup_keys_preserved(s: Seq<PostCandidate>)
    ensures
        keys_of(dedup_kept(s)) == keys_of(s),
    decreases s.len(),
{
    if s.len() == 0 {
        assert(keys_of(s) =~= Set::empty());
        assert(keys_of(dedup_kept(s)) =~= Set::empty());
    } else {
        let p = s.drop_last();
        let c = s.last();
        lemma_dedup_keys_preserved(p);
        assert(s =~= p.push(c));
        lemma_keys_of_push(p, c);
        if keys_of(p).contains(dedup_key(c)) {
            assert(keys_of(p).insert(dedup_key(c)) =~= keys_of(p));
        } else {
            lemma_keys_of_push(dedup_kept(p), c);
        }
    }
}

/// No two kept candidates stand for the same tweet.
pub proof fn lemma_dedup_kept_distinct(s: Seq<PostCandidate>)
    ensures
        keys_distinct(dedup_kept(s)),
    decreases s.len(),
{
    if s.len() > 0 {
        let p = s.drop_last();
        let c = s.last();
        lemma_dedup_kept_distinct(p);
        lemma_dedup_keys_preserved(p);
        let kp = dedup_kept(p);
        if !keys_of(p).contains(dedup_key(c)) {
            let k = kp.push(c);
            assert forall|i: int, j: int| 0 <= i < j < k.len() implies dedup_key(#[trigger] k[i])
                != dedup_key(#[trigger] k[j]) by {
                if j == kp.len() {
                    assert(k[i] == kp[i]);
                    if dedup_key(kp[i]) == dedup_key(c) {
                        assert(keys_of(kp).contains(dedup_key(c)));
                    }
                } else {
                    assert(k[i] == kp[i] && k[j] == kp[j]);
                }
            }
        }
    }
}

/// The kept candidates are exactly the first occurrences of their tweets:
/// each kept candidate is a candidate of the input that no earlier input
/// candidate shares its tweet with, each such first occurrence is kept, and
/// each removed candidate comes after an input candidate for the same tweet.
pub proof fn lemma_dedup_keeps_first_occurrences(s: Seq<PostCandidate>)
    ensures
        forall|i: int|
            0 <= i < dedup_kept(s).len() ==> exists|j: int|
                0 <= j < s.len() && s[j] == #[trigger] dedup_kept(s)[i] && is_first_occurrence(
                    s,
                    j,
                ),
        forall|j: int|
            0 <= j < s.len() && #[trigger] is_first_occurrence(s, j) ==> dedup_kept(s).contains(
                s[j],
            ),
        forall|i: int|
            0 <= i < dedup_removed(s).len() ==> exists|j: int|
                0 <= j < s.len() && s[j] == #[trigger] dedup_removed(s)[i] && !is_first_occurrence(
                    s,
                    j,
                ),
    decreases s.len(),
{
    if s.len() > 0 {
        let p = s.drop_last();
        let c = s.last();
        let n = p.len() as int;
        lemma_dedup_keeps_first_occurrences(p);
        let kp = dedup_kept(p);
        let rp = dedup_removed(p);
        assert forall|j: int| 0 <= j < n implies (is_first_occurrence(s, j)
            <==> is_first_occurrence(p, j)) by {
            assert forall|l: int| 0 <= l < j implies s[l] == p[l] by {}
            assert(s[j] == p[j]);
        }
        let seen = keys_of(p).contains(dedup_key(c));
        assert(is_first_occurrence(s, n) <==> !seen) by {
            if seen {
                let l = choose|l: int| 0 <= l < p.len() && dedup_key(p[l]) == dedup_key(c);
                assert(s[l] == p[l]);
            } else {
                assert forall|l: int| 0 <= l < n implies dedup_key(s[l]) != dedup_key(s[n]) by {
                    assert(s[l] == p[l]);
                    if dedup_key(p[l]) == dedup_key(c) {
                        assert(keys_of(p).contains(dedup_key(c)));
                    }
                }
            }
        }
        let k = dedup_kept(s);
        let r = dedup_removed(s);
        assert forall|i: int| 0 <= i < k.len() implies exists|j: int|
            0 <= j < s.len() && s[j] == #[trigger] k[i] && is_first_occurrence(s, j) by {
            if i < kp.len() {
                assert(k[i] == kp[i]);
                let j = choose|j: int| 0 <= j < p.len() && p[j] == kp[i] && is_first_occurrence(p, j);
                assert(s[j] == p[j]);
            } else {
                assert(k[i] == s[n]);
            }
        }
        assert forall|j: int| 0 <= j < s.len() && #[trigger] is_first_occurrence(s, j) implies k.contains(
            s[j],
        ) by {
            if j < n {
                assert(is_first_occurrence(p, j));
                assert(kp.contains(p[j]));
                let i = choose|i: int| 0 <= i < kp.len() && kp[i] == p[j];
                assert(k[i] == kp[i]);
                assert(s[j] == p[j]);
            } else {
                assert(k[kp.len() as int] == s[n]);
            }
        }
        assert forall|i: int| 0 <= i < r.len() implies exists|j: int|
            0 <= j < s.len() && s[j] == #[trigger] r[i] && !is_first_occurrence(s, j) by {
            if i < rp.len() {
                assert(r[i] == rp[i]);
                let j = choose|j: int| 0 <= j < p.len() && p[j] == rp[i] && !is_first_occurrence(p, j);
                assert(s[j] == p[j]);
            } else {
                assert(r[i] == s[n]);
            }
        }
    }
}

/// Input whose candidates all stand for different tweets passes unchanged.
pub proof fn lemma_dedup_distinct_unchanged(s: Seq<PostCandidate>)
    requires
        keys_distinct(s),
    ensures
        dedup_kept(s) == s,
        dedup_removed(s) == Seq::<PostCandidate>::empty(),
    decreases s.len(),
{
    if s.len() > 0 {
        let p = s.drop_last();
        let c = s.last();
        assert forall|i: int, j: int| 0 <= i < j < p.len() implies dedup_key(#[trigger] p[i])
            != dedup_key(#[trigger] p[j]) by {
            assert(p[i] == s[i] && p[j] == s[j]);
        }
        lemma_dedup_distinct_unchanged(p);
        if keys_of(p).contains(dedup_key(c)) {
            let l = choose|l: int| 0 <= l < p.len() && dedup_key(p[l]) == dedup_key(c);
            assert(p[l] == s[l]);
            assert(s[s.len() - 1] == c);
        }
        assert(p.push(c) =~= s);
    }
}

/// The tweet a candidate is deduplicated under is its retweeted tweet's full
/// id when it is a retweet, and its own full id (read as `u64`) otherwise.
pub proof fn lemma_dedup_key_is_full_tweet_id(c: PostCandidate)
    ensures
        forall|r: u64| c.retweeted_tweet_id == Some(r) ==> dedup_key(c) == r,
        c.retweeted_tweet_id == Option::<u64>::None ==> dedup_key(c) == c.tweet_id as u64,
{
}

/// Candidates whose tweet ids (the retweeted id for a retweet, the own id as
/// `u64` otherwise) are pairwise different are all kept, in order, and
/// nothing is removed.
pub proof fn lemma_different_tweet_ids_all_kept(s: Seq<PostCandidate>)
    requires
        forall|i: int, j: int|
            0 <= i < j < s.len() ==> (match (#[trigger] s[i]).retweeted_tweet_id {
                Some(r) => r,
                None => s[i].tweet_id as u64,
            }) != (match (#[trigger] s[j]).retweeted_tweet_id {
                Some(r) => r,
                None => s[j].tweet_id as u64,
            }),
    ensures
        dedup_kept(s) == s,
        dedup_removed(s) == Seq::<PostCandidate>::empty(),
{
    lemma_dedup_distinct_unchanged(s);
}

/// A candidate is removed only because a kept candidate has exactly the same
/// tweet id (the retweeted id for a retweet, the own id as `u64` otherwise).
pub proof fn lemma_removed_only_on_equal_tweet_id(s: Seq<PostCandidate>)
    ensures
        forall|i: int|
            0 <= i < dedup_removed(s).len() ==> exists|l: int|
                0 <= l < dedup_kept(s).len() && (match (#[trigger] dedup_kept(s)[l]).retweeted_tweet_id {
                    Some(r) => r,
                    None => dedup_kept(s)[l].tweet_id as u64,
                }) == (match (#[trigger] dedup_removed(s)[i]).retweeted_tweet_id {
                    Some(r) => r,
                    None => dedup_removed(s)[i].tweet_id as u64,
                }),
    decreases s.len(),
{
    if s.len() > 0 {
        let p = s.drop_last();
        let c = s.last();
        lemma_removed_only_on_equal_tweet_id(p);
        lemma_dedup_keys_preserved(p);
        let kp = dedup_kept(p);
        let rp = dedup_removed(p);
        let k = dedup_kept(s);
        let r = dedup_removed(s);
        assert forall|i: int| 0 <= i < r.len() implies exists|l: int|
            0 <= l < k.len() && (match (#[trigger] k[l]).retweeted_tweet_id {
                Some(x) => x,
                None => k[l].tweet_id as u64,
            }) == (match (#[trigger] r[i]).retweeted_tweet_id {
                Some(x) => x,
                None => r[i].tweet_id as u64,
            }) by {
            if i < rp.len() {
                assert(r[i] == rp[i]);
                let l = choose|l: int| 0 <= l < kp.len() && dedup_key(#[trigger] kp[l]) == dedup_key(rp[i]);
                assert(k[l] == kp[l]);
                assert(dedup_key(k[l]) == dedup_key(r[i]));
            } else {
                assert(r[i] == c);
                assert(keys_of(kp).contains(dedup_key(c)));
                let l = choose|l: int| 0 <= l < kp.len() && dedup_key(kp[l]) == dedup_key(c);
                assert(k[l] == kp[l]);
                assert(dedup_key(k[l]) == dedup_key(r[i]));
            }
        }
    }
}

/// Deduplicating twice is deduplicating once: the kept candidates of a first
/// pass all pass a second one, which removes nothing.
pub proof fn lemma_dedup_idempotent(s: Seq<PostCandidate>)
    ensures
        dedup_kept(dedup_kept(s)) == dedup_kept(s),
        dedup_removed(dedup_kept(s)) == Seq::<PostCandidate>::empty(),
{
    lemma_dedup_kept_distinct(s);
    lemma_dedup_distinct_unchanged(dedup_kept(s));
}

/// Deduplicates retweets, keeping only the first occurrence of a tweet
/// (whether as an original or as a retweet).
pub struct RetweetDeduplicationFilter;

impl RetweetDeduplicationFilter {
    /// Walks the candidates in order and keeps a candidate exactly when the
    /// tweet it stands for (see `dedup_key`) has not been seen among the
    /// candidates before it; the others go to `removed`, in their order.
    pub fn filter(
        &self,
        _query: &ScoredPostsQuery,
        candidates: Vec<PostCandidate>,
    ) -> (result: Result<FilterResult<PostCandidate>, String>)
        ensures
            match result {
                Ok(r) => r.kept@ == dedup_kept(candidates@) && r.removed@ == dedup_removed(
                    candidates@,
                ),
                Err(_) => false,
            },
    {
        let ghost input = candidates@;
        let mut seen_tweet_ids: HashSet<u64> = HashSet::new();
        let mut kept: Vec<PostCandidate> = Vec::new();
        let mut removed: Vec<PostCandidate> = Vec::new();

        proof {
            assert(input.take(0) =~= Seq::<PostCandidate>::empty());
            assert(keys_of(input.take(0)) =~= Set::<u64>::empty());
        }

        for candidate in it: candidates.into_iter()
            invariant
                it.seq() == input,
                seen_tweet_ids@ == keys_of(input.take(it.index() as int)),
                kept@ == dedup_kept(input.take(it.index() as int)),
                removed@ == dedup_removed(input.take(it.index() as int)),
        {
            proof {
                lemma_split_step(input, it.index() as int);
            }
            match candidate.retweeted_tweet_id {
                Some(retweeted_id) => {
                    // Remove if we've already seen this tweet (as original or retweet)
                    if seen_tweet_ids.insert(retweeted_id) {
                        kept.push(candidate);
                    } else {
                        removed.push(candidate);
                    }
                },
                None => {
                    // Mark this original tweet ID as seen so retweets of it get filtered
                    if seen_tweet_ids.insert(candidate.tweet_id as u64) {
                        kept.push(candidate);
                    } else {
                        removed.push(candidate);
                    }
                },
            }
        }
        proof {
            assert(input.take(input.len() as int) =~= input);
        }
        Ok(FilterResult { kept, removed })
    }
}

} // verus!
