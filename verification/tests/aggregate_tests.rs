use data_pipeline::aggregate::Aggregator;
use data_pipeline::pairkey::PairKey;

#[test]
fn pair_key_is_symmetric() {
    let k1 = PairKey::new(String::from("bob@x.com"), String::from("alice@x.com"));
    let k2 = PairKey::new(String::from("alice@x.com"), String::from("bob@x.com"));
    assert_eq!(k1.lo, "alice@x.com");
    assert_eq!(k1.hi, "bob@x.com");
    assert_eq!(k1.lo, k2.lo);
    assert_eq!(k1.hi, k2.hi);
}

#[test]
fn pair_key_is_ordered() {
    let k = PairKey::new(String::from("zed"), String::from("amy"));
    assert!(k.lo <= k.hi);
    let same = PairKey::new(String::from("amy"), String::from("amy"));
    assert_eq!(same.lo, same.hi);
}

#[test]
fn three_observations_scenario() {
    // (a,b,0.8), (b,a,0.4), (a,c,-0.2) in milli-units, with a < b < c.
    let mut agg = Aggregator::new();
    agg.add_observation(String::from("a"), String::from("b"), 800);
    agg.add_observation(String::from("b"), String::from("a"), 400);
    agg.add_observation(String::from("a"), String::from("c"), -200);
    let recs = agg.finalize();
    assert_eq!(recs.len(), 2);
    assert_eq!(recs[0].from, "a");
    assert_eq!(recs[0].to, "b");
    assert_eq!(recs[0].email_count, 2);
    assert_eq!(recs[0].total_sentiment_milli, 1200);
    assert_eq!(recs[0].mean_sentiment_milli, 600);
    assert_eq!(recs[1].from, "a");
    assert_eq!(recs[1].to, "c");
    assert_eq!(recs[1].email_count, 1);
    assert_eq!(recs[1].total_sentiment_milli, -200);
    assert_eq!(recs[1].mean_sentiment_milli, -200);
}

#[test]
fn counts_sum_to_observation_count() {
    let mut agg = Aggregator::new();
    agg.add_observation(String::from("p"), String::from("q"), 100);
    agg.add_observation(String::from("q"), String::from("p"), 200);
    agg.add_observation(String::from("p"), String::from("r"), 300);
    agg.add_observation(String::from("r"), String::from("q"), -100);
    agg.add_observation(String::from("p"), String::from("q"), 0);
    let recs = agg.finalize();
    let total: u64 = recs.iter().map(|r| r.email_count as u64).sum();
    assert_eq!(total, 5);
}

#[test]
fn aggregation_is_order_independent() {
    let obs = [
        ("a", "b", 800i64),
        ("b", "a", 400),
        ("a", "c", -200),
        ("c", "b", 150),
    ];
    let perm = [1usize, 3, 0, 2];
    let mut agg1 = Aggregator::new();
    for (s, r, v) in obs.iter() {
        agg1.add_observation(String::from(*s), String::from(*r), *v);
    }
    let mut agg2 = Aggregator::new();
    for i in perm.iter() {
        let (s, r, v) = obs[*i];
        agg2.add_observation(String::from(s), String::from(r), v);
    }
    let r1 = agg1.finalize();
    let r2 = agg2.finalize();
    assert_eq!(r1.len(), r2.len());
    for rec in r1.iter() {
        let other = r2
            .iter()
            .find(|o| o.from == rec.from && o.to == rec.to)
            .expect("pair missing after permutation");
        assert_eq!(other.email_count, rec.email_count);
        assert_eq!(other.total_sentiment_milli, rec.total_sentiment_milli);
        assert_eq!(other.mean_sentiment_milli, rec.mean_sentiment_milli);
    }
}

#[test]
fn finalize_twice_is_identical() {
    let mut agg = Aggregator::new();
    agg.add_observation(String::from("a"), String::from("b"), 500);
    agg.add_observation(String::from("b"), String::from("c"), -700);
    let first = agg.finalize();
    let second = agg.finalize();
    assert_eq!(first.len(), second.len());
    for (x, y) in first.iter().zip(second.iter()) {
        assert_eq!(x.from, y.from);
        assert_eq!(x.to, y.to);
        assert_eq!(x.email_count, y.email_count);
        assert_eq!(x.total_sentiment_milli, y.total_sentiment_milli);
        assert_eq!(x.mean_sentiment_milli, y.mean_sentiment_milli);
    }
}

#[test]
fn empty_aggregation_yields_no_records() {
    let mut agg = Aggregator::new();
    let recs = agg.finalize();
    assert!(recs.is_empty());
}

#[test]
fn mean_truncates_toward_zero() {
    let mut pos = Aggregator::new();
    pos.add_observation(String::from("a"), String::from("b"), 100);
    pos.add_observation(String::from("a"), String::from("b"), 201);
    let recs = pos.finalize();
    assert_eq!(recs[0].total_sentiment_milli, 301);
    assert_eq!(recs[0].mean_sentiment_milli, 150);

    let mut neg = Aggregator::new();
    neg.add_observation(String::from("a"), String::from("b"), -100);
    neg.add_observation(String::from("a"), String::from("b"), -201);
    let recs = neg.finalize();
    assert_eq!(recs[0].total_sentiment_milli, -301);
    assert_eq!(recs[0].mean_sentiment_milli, -150);
}
