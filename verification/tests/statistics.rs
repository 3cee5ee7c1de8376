use cardwatch::stats::aggregate_by_variant;
use cardwatch::stats::iqr;
use cardwatch::stats::median;
use cardwatch::stats::retained_mean;
use cardwatch::stats::Class;
use cardwatch::stats::StatRow;
use cardwatch::stats::VariantKey;

#[test]
fn iqr_excludes_the_outlier() {
    let kept = iqr(vec![1, 2, 3, 4, 100]);
    assert_eq!(kept, vec![1, 2, 3, 4]);
    let mean = retained_mean(vec![1, 2, 3, 4, 100]);
    assert_eq!(mean, (1 + 2 + 3 + 4) / 4);
}

#[test]
fn iqr_keeps_the_original_order() {
    let kept = iqr(vec![4, 100, 1, 3, 2]);
    assert_eq!(kept, vec![4, 1, 3, 2]);
}

#[test]
fn iqr_of_tiny_inputs_is_empty() {
    assert_eq!(iqr(vec![]), Vec::<u64>::new());
    assert_eq!(iqr(vec![7]), Vec::<u64>::new());
    assert_eq!(retained_mean(vec![7]), 0);
}

#[test]
fn median_uses_the_plain_index_rule() {
    let odd = [1u64, 2, 3, 4, 5];
    assert_eq!(median(&odd), Some(&3));
    let even = [1u64, 2, 3, 4];
    assert_eq!(median(&even), Some(&3));
    let empty: [u64; 0] = [];
    assert_eq!(median(&empty), None);
}

#[test]
fn aggregates_group_by_variant_in_first_appearance_order() {
    let a = VariantKey {
        expansion: 1,
        number: 25,
        class: Class::Regular,
    };
    let b = VariantKey {
        expansion: 1,
        number: 25,
        class: Class::ReverseHolo,
    };
    let rows = vec![
        StatRow { key: a, price: 1 },
        StatRow { key: b, price: 10 },
        StatRow { key: a, price: 2 },
        StatRow { key: a, price: 3 },
        StatRow { key: a, price: 4 },
        StatRow { key: a, price: 100 },
        StatRow { key: b, price: 10 },
    ];
    let stats = aggregate_by_variant(&rows);
    assert_eq!(stats.len(), 2);
    assert_eq!(stats[0].key, a);
    assert_eq!(stats[0].mean_price, 2);
    assert_eq!(stats[1].key, b);
    assert_eq!(stats[1].mean_price, 10);
}

#[test]
fn aggregate_of_no_rows_is_empty() {
    let stats = aggregate_by_variant(&Vec::new());
    assert!(stats.is_empty());
}

#[test]
fn class_names_round_trip() {
    assert_eq!(Class::from_name("Regular"), Ok(Class::Regular));
    assert_eq!(Class::from_name("Reverse Holo"), Ok(Class::ReverseHolo));
    assert_eq!(Class::from_name("Holo"), Ok(Class::Holo));
    assert_eq!(
        Class::from_name("Shiny"),
        Err("Invalid class variant".to_owned())
    );
    assert_eq!(Class::Regular.name(), "Regular");
    assert_eq!(Class::ReverseHolo.name(), "Reverse Holo");
    assert_eq!(Class::Holo.name(), "Holo");
}
