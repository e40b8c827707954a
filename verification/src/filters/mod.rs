pub mod retweet_deduplication_filter;
