use home_mixer::candidate_pipeline::candidate::PostCandidate;
use home_mixer::candidate_pipeline::query::ScoredPostsQuery;
use home_mixer::filters::retweet_deduplication_filter::RetweetDeduplicationFilter;

fn original(tweet_id: i64) -> PostCandidate {
    PostCandidate {
        tweet_id,
        retweeted_tweet_id: None,
    }
}

fn retweet(tweet_id: i64, retweeted_id: u64) -> PostCandidate {
    PostCandidate {
        tweet_id,
        retweeted_tweet_id: Some(retweeted_id),
    }
}

fn ids(candidates: &[PostCandidate]) -> Vec<i64> {
    candidates.iter().map(|c| c.tweet_id).collect()
}

#[test]
fn test_retweet_deduplication_filter_removes_original_if_retweet_seen_first() {
    let filter = RetweetDeduplicationFilter;
    let query = ScoredPostsQuery::default();

    let retweet_candidate = PostCandidate {
        tweet_id: 100,
        retweeted_tweet_id: Some(200),
        ..Default::default()
    };

    let original_candidate = PostCandidate {
        tweet_id: 200,
        retweeted_tweet_id: None,
        ..Default::default()
    };

    let candidates = vec![retweet_candidate, original_candidate];

    let result = filter.filter(&query, candidates).unwrap();

    // Should keep the retweet (first occurrence of 200)
    assert_eq!(result.kept.len(), 1);
    assert_eq!(result.kept[0].tweet_id, 100);

    // Should remove the original tweet (second occurrence of 200)
    assert_eq!(result.removed.len(), 1);
    assert_eq!(result.removed[0].tweet_id, 200);
}

#[test]
fn test_retweet_deduplication_filter_removes_retweet_if_original_seen_first() {
    let filter = RetweetDeduplicationFilter;
    let query = ScoredPostsQuery::default();

    let original_candidate = PostCandidate {
        tweet_id: 200,
        retweeted_tweet_id: None,
        ..Default::default()
    };

    let retweet_candidate = PostCandidate {
        tweet_id: 100,
        retweeted_tweet_id: Some(200),
        ..Default::default()
    };

    let candidates = vec![original_candidate, retweet_candidate];

    let result = filter.filter(&query, candidates).unwrap();

    // Should keep the original tweet (first occurrence of 200)
    assert_eq!(result.kept.len(), 1);
    assert_eq!(result.kept[0].tweet_id, 200);

    // Should remove the retweet (second occurrence of 200)
    assert_eq!(result.removed.len(), 1);
    assert_eq!(result.removed[0].tweet_id, 100);
}

#[test]
fn empty_input_keeps_and_removes_nothing() {
    let result = RetweetDeduplicationFilter
        .filter(&ScoredPostsQuery::default(), Vec::new())
        .unwrap();
    assert!(result.kept.is_empty());
    assert!(result.removed.is_empty());
}

#[test]
fn default_candidate_is_an_original_with_id_zero() {
    let c = PostCandidate::default();
    assert_eq!(c.tweet_id, 0);
    assert_eq!(c.retweeted_tweet_id, None);
}

#[test]
fn distinct_tweets_all_kept_in_order() {
    let candidates = vec![original(3), retweet(10, 7), original(1), retweet(11, 4)];
    let result = RetweetDeduplicationFilter
        .filter(&ScoredPostsQuery::default(), candidates)
        .unwrap();
    assert_eq!(ids(&result.kept), vec![3, 10, 1, 11]);
    assert!(result.removed.is_empty());
}

#[test]
fn several_retweets_of_one_tweet_keep_only_the_first() {
    let candidates = vec![
        retweet(1, 500),
        original(2),
        retweet(3, 500),
        retweet(4, 2),
        original(500),
        retweet(5, 500),
    ];
    let result = RetweetDeduplicationFilter
        .filter(&ScoredPostsQuery::default(), candidates)
        .unwrap();
    assert_eq!(ids(&result.kept), vec![1, 2]);
    assert_eq!(ids(&result.removed), vec![3, 4, 500, 5]);
}

#[test]
fn duplicate_originals_keep_the_first() {
    let candidates = vec![original(42), original(42), original(42)];
    let result = RetweetDeduplicationFilter
        .filter(&ScoredPostsQuery::default(), candidates)
        .unwrap();
    assert_eq!(result.kept.len(), 1);
    assert_eq!(result.removed.len(), 2);
}

#[test]
fn retweet_id_is_not_compared_with_the_retweet_own_id() {
    // A retweet stands for the tweet it retweets, not for its own id.
    let candidates = vec![retweet(100, 200), original(100)];
    let result = RetweetDeduplicationFilter
        .filter(&ScoredPostsQuery::default(), candidates)
        .unwrap();
    assert_eq!(ids(&result.kept), vec![100, 100]);
    assert!(result.removed.is_empty());
}

#[test]
fn negative_tweet_id_is_read_as_unsigned() {
    // An original with id -1 stands for tweet u64::MAX.
    let candidates = vec![original(-1), retweet(7, u64::MAX), retweet(8, 1)];
    let result = RetweetDeduplicationFilter
        .filter(&ScoredPostsQuery::default(), candidates)
        .unwrap();
    assert_eq!(ids(&result.kept), vec![-1, 8]);
    assert_eq!(ids(&result.removed), vec![7]);
}

#[test]
fn outputs_partition_the_input() {
    let candidates = vec![
        original(1),
        retweet(2, 1),
        retweet(3, 9),
        original(9),
        original(4),
        retweet(5, 4),
        original(1),
    ];
    let n = candidates.len();
    let result = RetweetDeduplicationFilter
        .filter(&ScoredPostsQuery::default(), candidates)
        .unwrap();
    assert_eq!(result.kept.len() + result.removed.len(), n);
    let mut all = ids(&result.kept);
    all.extend(ids(&result.removed));
    all.sort();
    assert_eq!(all, vec![1, 1, 2, 3, 4, 5, 9]);
}

#[test]
fn filtering_the_kept_candidates_again_removes_nothing() {
    let candidates = vec![retweet(1, 5), original(5), original(6), retweet(2, 6), retweet(3, 7)];
    let first = RetweetDeduplicationFilter
        .filter(&ScoredPostsQuery::default(), candidates)
        .unwrap();
    let kept_ids = ids(&first.kept);
    let second = RetweetDeduplicationFilter
        .filter(&ScoredPostsQuery::default(), first.kept)
        .unwrap();
    assert_eq!(ids(&second.kept), kept_ids);
    assert!(second.removed.is_empty());
}
