use lbtas::store::{LevesonRatingSystem, Metadata, ExchangeData};
use lbtas::document::LoadError;

fn default_category_strings() -> Vec<String> {
    vec![
        "reliability".to_string(),
        "usability".to_string(),
        "performance".to_string(),
        "support".to_string(),
    ]
}

fn sample_store() -> LevesonRatingSystem {
    let mut sys = LevesonRatingSystem::new(None);
    sys.add_exchange("acme").unwrap();
    sys.add_exchange("zenith").unwrap();
    sys.add_rating("acme", "reliability", 3).unwrap();
    sys.add_rating("acme", "reliability", -1).unwrap();
    sys.add_rating("acme", "support", 4).unwrap();
    sys.add_rating("zenith", "usability", 0).unwrap();
    sys
}

#[test]
fn export_then_reimport_is_lossless() {
    let sys = sample_store();
    let doc = sys.export_to_document();
    let back = LevesonRatingSystem::from_document(doc, default_category_strings())
        .expect("a freshly exported document must rehydrate");
    assert_eq!(back.get_all_exchanges(), sys.get_all_exchanges());
    for name in sys.get_all_exchanges() {
        let a = sys.view_ratings(&name).unwrap();
        let b = back.view_ratings(&name).unwrap();
        assert_eq!(a.ratings, b.ratings);
        assert_eq!(sys.total_ratings_of(&name), back.total_ratings_of(&name));
    }
    // metadata fields, including timestamps, survive the round trip
    let doc_a = sys.export_to_document();
    let doc_b = back.export_to_document();
    assert_eq!(doc_a.len(), doc_b.len());
    for (pa, pb) in doc_a.iter().zip(doc_b.iter()) {
        assert_eq!(pa.0, pb.0);
        assert_eq!(pa.1.metadata.created, pb.1.metadata.created);
        assert_eq!(pa.1.metadata.total_ratings, pb.1.metadata.total_ratings);
    }
}

fn plain_exchange(values: Vec<(&str, Vec<i8>)>, total: usize) -> ExchangeData {
    ExchangeData {
        categories: values.into_iter().map(|(n, v)| (n.to_string(), v)).collect(),
        metadata: Metadata { created: "2024-01-01T00:00:00+00:00".to_string(), total_ratings: total },
    }
}

#[test]
fn reimport_rejects_out_of_range_values() {
    let doc = vec![(
        "acme".to_string(),
        plain_exchange(
            vec![
                ("reliability", vec![5]),
                ("usability", vec![]),
                ("performance", vec![]),
                ("support", vec![]),
            ],
            1,
        ),
    )];
    let r = LevesonRatingSystem::from_document(doc, default_category_strings());
    assert!(matches!(r, Err(LoadError::CorruptData)));
}

#[test]
fn reimport_rejects_mismatched_totals() {
    let doc = vec![(
        "acme".to_string(),
        plain_exchange(
            vec![
                ("reliability", vec![1, 2]),
                ("usability", vec![]),
                ("performance", vec![]),
                ("support", vec![]),
            ],
            3,
        ),
    )];
    let r = LevesonRatingSystem::from_document(doc, default_category_strings());
    assert!(matches!(r, Err(LoadError::CorruptData)));
}

#[test]
fn reimport_rejects_unknown_category_names() {
    let doc = vec![(
        "acme".to_string(),
        plain_exchange(
            vec![
                ("speed", vec![1]),
                ("usability", vec![]),
                ("performance", vec![]),
                ("support", vec![]),
            ],
            1,
        ),
    )];
    let r = LevesonRatingSystem::from_document(doc, default_category_strings());
    assert!(matches!(r, Err(LoadError::CorruptData)));
}

#[test]
fn reimport_rejects_unsorted_or_duplicate_names() {
    let empty = || {
        plain_exchange(
            vec![
                ("reliability", vec![]),
                ("usability", vec![]),
                ("performance", vec![]),
                ("support", vec![]),
            ],
            0,
        )
    };
    let unsorted = vec![("b".to_string(), empty()), ("a".to_string(), empty())];
    assert!(matches!(
        LevesonRatingSystem::from_document(unsorted, default_category_strings()),
        Err(LoadError::CorruptData)
    ));
    let duplicated = vec![("a".to_string(), empty()), ("a".to_string(), empty())];
    assert!(matches!(
        LevesonRatingSystem::from_document(duplicated, default_category_strings()),
        Err(LoadError::CorruptData)
    ));
}

#[test]
fn reimport_accepts_a_well_formed_document() {
    let doc = vec![(
        "acme".to_string(),
        plain_exchange(
            vec![
                ("reliability", vec![1, 2]),
                ("usability", vec![-1]),
                ("performance", vec![]),
                ("support", vec![4]),
            ],
            4,
        ),
    )];
    let sys = LevesonRatingSystem::from_document(doc, default_category_strings()).unwrap();
    assert_eq!(sys.total_ratings_of("acme"), Some(4));
    let summary = sys.view_ratings("acme").unwrap();
    assert_eq!(summary.ratings[0].1, Some(150));
    assert_eq!(summary.ratings[1].1, Some(-100));
    assert_eq!(summary.ratings[2].1, None);
    assert_eq!(summary.ratings[3].1, Some(400));
}

#[test]
fn failed_rating_leaves_state_unchanged_for_later_views() {
    // the failing command path: `add` with the value 7 must not change
    // what a later view reports
    let mut sys = sample_store();
    let before = sys.view_ratings("acme").unwrap().ratings;
    let r = sys.add_rating("acme", "reliability", 7);
    assert!(r.is_err());
    let after = sys.view_ratings("acme").unwrap().ratings;
    assert_eq!(before, after);
}
