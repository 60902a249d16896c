use egorec::pipeline::{determine_episode_status, episode_id, interval_id, stable_hash};
use egorec::scanner::Verdict;

#[test]
fn stable_hash_is_sha1_hex_prefix() {
    assert_eq!(stable_hash("hello", 40), "aaf4c61ddcc5e8a2dabede0f3b482cd9aea9434d");
    assert_eq!(stable_hash("hello", 8), "aaf4c61d");
    assert_eq!(stable_hash("", 12), "da39a3ee5e6b");
    assert_eq!(stable_hash("hello", 0), "");
}

#[test]
fn episode_ids_are_deterministic() {
    assert_eq!(episode_id("rec/ep1.egorec"), "ep_1c36cb4376511d87");
    assert_eq!(episode_id("rec/ep1.egorec"), episode_id("rec/ep1.egorec"));
    assert_ne!(episode_id("rec/ep1.egorec"), episode_id("rec/ep2.egorec"));
    assert!(episode_id("x").starts_with("ep_"));
    assert_eq!(episode_id("x").len(), 3 + 16);
}

#[test]
fn interval_ids_hash_key_and_millisecond_bounds() {
    assert_eq!(interval_id("rec/ep1.egorec", 1500, -250), "int_028f67ec9b16");
    assert_eq!(interval_id("a", 0, 1000).len(), 4 + 12);
    assert_ne!(interval_id("a", 0, 1000), interval_id("a", 0, 1001));
}

#[test]
fn episode_status_follows_validation_length_and_verdict() {
    assert_eq!(determine_episode_status(false, true, false, Some(Verdict::Keep)), "invalid");
    assert_eq!(determine_episode_status(true, false, false, Some(Verdict::Keep)), "invalid");
    assert_eq!(determine_episode_status(true, true, true, Some(Verdict::Keep)), "reject");
    assert_eq!(determine_episode_status(true, true, false, None), "invalid");
    assert_eq!(determine_episode_status(true, true, false, Some(Verdict::Keep)), "keep");
    assert_eq!(determine_episode_status(true, true, false, Some(Verdict::PruneConfident)), "reject");
    assert_eq!(determine_episode_status(true, true, false, Some(Verdict::PruneSuggested)), "review");
    assert_eq!(determine_episode_status(true, true, false, Some(Verdict::Review)), "review");
}

#[test]
fn verdict_labels() {
    assert_eq!(Verdict::Keep.as_str(), "KEEP");
    assert_eq!(Verdict::PruneConfident.as_str(), "PRUNE_CONFIDENT");
    assert_eq!(Verdict::PruneSuggested.as_str(), "PRUNE_SUGGESTED");
    assert_eq!(Verdict::Review.as_str(), "REVIEW");
}

#[test]
fn qc_message_lists_status_counts() {
    assert_eq!(
        egorec::pipeline::qc_message(7, 3, 2, 1, 1),
        "Wrote 7 episodes (keep=3, review=2, reject=1, invalid=1)"
    );
}
