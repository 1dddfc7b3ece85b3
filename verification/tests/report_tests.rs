use lbtas::store::LevesonRatingSystem;

#[test]
fn report_on_empty_store_is_all_empty() {
    let sys = LevesonRatingSystem::new(None);
    let report = sys.generate_report();
    assert_eq!(report.total_exchanges, 0);
    assert_eq!(report.total_ratings, 0);
    assert_eq!(report.system_average, None);
    assert!(report.top_performers.is_empty());
    assert!(report.bottom_performers.is_empty());
    for (_, avg) in report.category_averages.iter() {
        assert_eq!(*avg, None);
    }
}

#[test]
fn exchange_average_is_mean_of_category_means() {
    // create "acme"; reliability 3 and 1, usability 4: reliability mean
    // 2.00, usability mean 4.00, the other categories empty, and the
    // exchange average (2.00 + 4.00) / 2 = 3.00
    let mut sys = LevesonRatingSystem::new(None);
    sys.add_exchange("acme").unwrap();
    sys.add_rating("acme", "reliability", 3).unwrap();
    sys.add_rating("acme", "reliability", 1).unwrap();
    sys.add_rating("acme", "usability", 4).unwrap();
    let summary = sys.view_ratings("acme").unwrap();
    let mut reported: Vec<(String, Option<i64>)> = Vec::new();
    for p in summary.ratings.iter() {
        reported.push((p.0.clone(), p.1));
    }
    assert_eq!(reported[0], ("reliability".to_string(), Some(200)));
    assert_eq!(reported[1], ("usability".to_string(), Some(400)));
    assert_eq!(reported[2], ("performance".to_string(), None));
    assert_eq!(reported[3], ("support".to_string(), None));

    let report = sys.generate_report();
    assert_eq!(report.top_performers.len(), 1);
    assert_eq!(report.top_performers[0].name, "acme");
    assert_eq!(report.top_performers[0].average_hundredths, 300);
}

#[test]
fn report_ranks_best_first_and_averages_whole_system() {
    // "a" holds reliability 4, "b" holds reliability 0: top performer
    // "a" at 4.00, bottom performer "b" at 0.00, system average 2.00
    let mut sys = LevesonRatingSystem::new(None);
    sys.add_exchange("a").unwrap();
    sys.add_exchange("b").unwrap();
    sys.add_rating("a", "reliability", 4).unwrap();
    sys.add_rating("b", "reliability", 0).unwrap();
    let report = sys.generate_report();
    assert_eq!(report.total_exchanges, 2);
    assert_eq!(report.total_ratings, 2);
    assert_eq!(report.system_average, Some(200));
    assert_eq!(report.top_performers[0].name, "a");
    assert_eq!(report.top_performers[0].average_hundredths, 400);
    let worst = report.bottom_performers.last().unwrap();
    assert_eq!(worst.name, "b");
    assert_eq!(worst.average_hundredths, 0);
}

#[test]
fn category_averages_are_flat_means_over_all_exchanges() {
    let mut sys = LevesonRatingSystem::new(None);
    sys.add_exchange("a").unwrap();
    sys.add_exchange("b").unwrap();
    sys.add_rating("a", "reliability", 4).unwrap();
    sys.add_rating("a", "reliability", 1).unwrap();
    sys.add_rating("b", "reliability", 0).unwrap();
    sys.add_rating("b", "usability", 2).unwrap();
    let report = sys.generate_report();
    // reliability: (4 + 1 + 0) / 3 = 1.67
    assert_eq!(report.category_averages[0], ("reliability".to_string(), Some(167)));
    assert_eq!(report.category_averages[1], ("usability".to_string(), Some(200)));
    assert_eq!(report.category_averages[2], ("performance".to_string(), None));
    assert_eq!(report.category_averages[3], ("support".to_string(), None));
}

#[test]
fn ranking_takes_at_most_five_and_breaks_ties_by_name() {
    let mut sys = LevesonRatingSystem::new(None);
    for name in ["f", "e", "d", "c", "b", "a"] {
        sys.add_exchange(name).unwrap();
        sys.add_rating(name, "reliability", 2).unwrap();
    }
    let report = sys.generate_report();
    assert_eq!(report.top_performers.len(), 5);
    assert_eq!(report.bottom_performers.len(), 5);
    // all averages tie at 2.00, so ranking falls back to name order
    let top_names: Vec<&str> = report.top_performers.iter().map(|p| p.name.as_str()).collect();
    assert_eq!(top_names, vec!["a", "b", "c", "d", "e"]);
    let bottom_names: Vec<&str> =
        report.bottom_performers.iter().map(|p| p.name.as_str()).collect();
    assert_eq!(bottom_names, vec!["b", "c", "d", "e", "f"]);
}

#[test]
fn exchanges_without_ratings_are_excluded_from_ranking() {
    let mut sys = LevesonRatingSystem::new(None);
    sys.add_exchange("rated").unwrap();
    sys.add_exchange("silent").unwrap();
    sys.add_rating("rated", "support", 1).unwrap();
    let report = sys.generate_report();
    assert_eq!(report.total_exchanges, 2);
    assert_eq!(report.top_performers.len(), 1);
    assert_eq!(report.top_performers[0].name, "rated");
}

#[test]
fn csv_rows_enumerate_in_category_then_append_order() {
    let mut sys = LevesonRatingSystem::new(None);
    sys.add_exchange("acme").unwrap();
    sys.add_rating("acme", "usability", 3).unwrap();
    sys.add_rating("acme", "reliability", 1).unwrap();
    sys.add_rating("acme", "usability", 2).unwrap();
    let rows = sys.csv_rows();
    let flat: Vec<(String, String, i8, usize)> = rows
        .iter()
        .map(|r| (r.exchange.clone(), r.category.clone(), r.rating, r.index))
        .collect();
    assert_eq!(
        flat,
        vec![
            ("acme".to_string(), "reliability".to_string(), 1, 1),
            ("acme".to_string(), "usability".to_string(), 3, 1),
            ("acme".to_string(), "usability".to_string(), 2, 2),
        ]
    );
}
