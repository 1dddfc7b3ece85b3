use lbtas::store::{LevesonRatingSystem, StoreError};

fn mean_of(sys: &LevesonRatingSystem, exchange: &str, category: &str) -> Option<i64> {
    let summary = sys.view_ratings(exchange).expect("exchange should exist");
    for (name, value) in summary.ratings.iter() {
        if name.as_str() == category {
            return *value;
        }
    }
    panic!("category not reported");
}

#[test]
fn new_store_is_empty_with_default_categories() {
    let sys = LevesonRatingSystem::new(None);
    assert!(sys.get_all_exchanges().is_empty());
    assert_eq!(sys.categories.len(), 4);
    assert_eq!(sys.categories[0], "reliability");
    assert_eq!(sys.categories[1], "usability");
    assert_eq!(sys.categories[2], "performance");
    assert_eq!(sys.categories[3], "support");
}

#[test]
fn custom_categories_are_used_for_validation() {
    let cats = vec!["speed".to_string(), "care".to_string()];
    let mut sys = LevesonRatingSystem::new(Some(cats));
    sys.add_exchange("acme").unwrap();
    assert!(sys.add_rating("acme", "speed", 2).is_ok());
    assert_eq!(sys.add_rating("acme", "reliability", 2), Err(StoreError::InvalidCategory));
}

#[test]
fn duplicate_exchange_is_rejected() {
    let mut sys = LevesonRatingSystem::new(None);
    sys.add_exchange("acme").unwrap();
    assert_eq!(sys.add_exchange("acme"), Err(StoreError::DuplicateExchange));
    assert_eq!(sys.get_all_exchanges().len(), 1);
}

#[test]
fn rating_unknown_exchange_is_rejected() {
    let mut sys = LevesonRatingSystem::new(None);
    assert_eq!(sys.add_rating("ghost", "reliability", 2), Err(StoreError::UnknownExchange));
}

#[test]
fn out_of_range_ratings_never_change_totals() {
    let mut sys = LevesonRatingSystem::new(None);
    sys.add_exchange("acme").unwrap();
    sys.add_rating("acme", "reliability", 3).unwrap();
    assert_eq!(sys.total_ratings_of("acme"), Some(1));
    assert_eq!(sys.add_rating("acme", "reliability", -2), Err(StoreError::RatingOutOfRange));
    assert_eq!(sys.add_rating("acme", "reliability", 5), Err(StoreError::RatingOutOfRange));
    assert_eq!(sys.total_ratings_of("acme"), Some(1));
    assert_eq!(mean_of(&sys, "acme", "reliability"), Some(300));
}

#[test]
fn unknown_category_is_rejected_before_mutation() {
    let mut sys = LevesonRatingSystem::new(None);
    sys.add_exchange("acme").unwrap();
    assert_eq!(sys.add_rating("acme", "speed", 2), Err(StoreError::InvalidCategory));
    assert_eq!(sys.total_ratings_of("acme"), Some(0));
}

#[test]
fn boundary_ratings_are_accepted() {
    let mut sys = LevesonRatingSystem::new(None);
    sys.add_exchange("acme").unwrap();
    assert!(sys.add_rating("acme", "support", -1).is_ok());
    assert!(sys.add_rating("acme", "support", 4).is_ok());
    assert_eq!(sys.total_ratings_of("acme"), Some(2));
    // mean of -1 and 4 is 1.5, reported as 150 hundredths
    assert_eq!(mean_of(&sys, "acme", "support"), Some(150));
}

#[test]
fn add_rating_is_reflected_in_view() {
    let mut sys = LevesonRatingSystem::new(None);
    sys.add_exchange("acme").unwrap();
    assert_eq!(mean_of(&sys, "acme", "usability"), None);
    sys.add_rating("acme", "usability", 1).unwrap();
    assert_eq!(mean_of(&sys, "acme", "usability"), Some(100));
    sys.add_rating("acme", "usability", 0).unwrap();
    // mean of 1 and 0 is 0.5, rounded representation is 50 hundredths
    assert_eq!(mean_of(&sys, "acme", "usability"), Some(50));
}

#[test]
fn means_round_half_away_from_zero() {
    let mut sys = LevesonRatingSystem::new(None);
    sys.add_exchange("acme").unwrap();
    sys.add_rating("acme", "performance", 1).unwrap();
    sys.add_rating("acme", "performance", 1).unwrap();
    sys.add_rating("acme", "performance", 0).unwrap();
    // 2/3 = 0.666... rounds to 0.67
    assert_eq!(mean_of(&sys, "acme", "performance"), Some(67));
    sys.add_exchange("negative").unwrap();
    sys.add_rating("negative", "performance", -1).unwrap();
    sys.add_rating("negative", "performance", 0).unwrap();
    // -1/2 = -0.5 rounds away from zero to -0.50
    assert_eq!(mean_of(&sys, "negative", "performance"), Some(-50));
}

#[test]
fn view_reports_categories_in_configured_order() {
    let mut sys = LevesonRatingSystem::new(None);
    sys.add_exchange("acme").unwrap();
    let summary = sys.view_ratings("acme").unwrap();
    let names: Vec<&str> = summary.ratings.iter().map(|p| p.0.as_str()).collect();
    assert_eq!(names, vec!["reliability", "usability", "performance", "support"]);
}

#[test]
fn view_of_unknown_exchange_fails() {
    let sys = LevesonRatingSystem::new(None);
    assert!(matches!(sys.view_ratings("ghost"), Err(StoreError::UnknownExchange)));
}

#[test]
fn exchanges_are_listed_in_lexicographic_order() {
    let mut sys = LevesonRatingSystem::new(None);
    sys.add_exchange("zeta").unwrap();
    sys.add_exchange("Alpha").unwrap();
    sys.add_exchange("beta").unwrap();
    sys.add_exchange("alpha").unwrap();
    let listed = sys.get_all_exchanges();
    assert_eq!(listed, vec!["Alpha", "alpha", "beta", "zeta"]);
}

#[test]
fn total_ratings_matches_number_of_exported_rows() {
    let mut sys = LevesonRatingSystem::new(None);
    sys.add_exchange("acme").unwrap();
    sys.add_rating("acme", "reliability", 2).unwrap();
    sys.add_rating("acme", "usability", 3).unwrap();
    sys.add_rating("acme", "usability", 4).unwrap();
    let rows = sys.csv_rows();
    let acme_rows = rows.iter().filter(|r| r.exchange == "acme").count();
    assert_eq!(sys.total_ratings_of("acme"), Some(acme_rows));
}

#[test]
fn rating_descriptions_cover_the_six_point_scale() {
    let map = lbtas::store::rating_descriptions();
    assert_eq!(map.len(), 6);
    for k in -1..=4 {
        assert!(map.contains_key(&k));
    }
    assert!(map[&-1].starts_with("No Trust"));
    assert!(map[&4].starts_with("Delight"));
}
