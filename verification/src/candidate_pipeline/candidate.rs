use vstd::prelude::*;

verus! {

/// A post that a pipeline stage may keep or drop.
///
/// It holds what the filters of this crate read: the post's own id, and,
/// for a retweet, the id of the tweet that it retweets.
#[derive(Clone, Debug)]
pub struct PostCandidate {
    pub tweet_id: i64,
    pub retweeted_tweet_id: Option<u64>,
}

impl Default for PostCandidate {
    fn default() -> (c: Self)
        ensures
            c.tweet_id == 0,
            c.retweeted_tweet_id is None,
    {
        PostCandidate { tweet_id: 0, retweeted_tweet_id: None }
    }
}

} // verus!
