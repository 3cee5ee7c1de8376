use cardwatch::catalog::Class;
use cardwatch::catalog::Expansion;
use cardwatch::catalog::Pokemon;
use cardwatch::catalog::Rarity;
use cardwatch::extract::BuyingFormat;
use cardwatch::extract::Listing;
use cardwatch::extract::SaleDate;
use cardwatch::money::Money;
use cardwatch::store::ItemKey;
use cardwatch::store::Store;
use cardwatch::sweep::resume_position;
use cardwatch::sweep::sweep_plan;

fn listing(id: u64, day: u32) -> Listing {
    Listing {
        id,
        title: format!("Pikachu {id}"),
        date: SaleDate {
            year: 2025,
            month: 1,
            day,
        },
        price: Money {
            currency: cardwatch::money::gbp(),
            total: 100 + id,
        },
        link: format!("https://example.invalid/itm/{id}"),
        buying_format: BuyingFormat::BuyItNow {
            accepts_offers: false,
            offer_was_accepted: false,
        },
    }
}

fn pikachu_key() -> ItemKey {
    ItemKey {
        set_name: "Scarlet & Violet".to_owned(),
        expansion_number: 6,
        number: 25,
        class: Class::Regular,
    }
}

#[test]
fn committing_twice_leaves_the_store_unchanged() {
    let mut store = Store::new();
    let key = pikachu_key();
    let batch = vec![listing(1, 5), listing(2, 4), listing(3, 3)];
    store
        .commit_listings(&key, batch, false)
        .expect("first commit should succeed");
    let after_first: Vec<u64> = store.listings.iter().map(|l| l.id).collect();
    let assocs_first = store.assocs.len();

    let again = vec![listing(1, 5), listing(2, 4), listing(3, 3)];
    store
        .commit_listings(&key, again, false)
        .expect("second commit should succeed");
    let after_second: Vec<u64> = store.listings.iter().map(|l| l.id).collect();
    assert_eq!(after_first, after_second);
    assert_eq!(store.assocs.len(), assocs_first);
}

#[test]
fn a_failing_transaction_persists_nothing() {
    let mut store = Store::new();
    let key = pikachu_key();
    store
        .commit_listings(&key, vec![listing(1, 5)], false)
        .expect("setup commit should succeed");
    let listings_before = store.listings.len();
    let assocs_before = store.assocs.len();
    let checkpoint_before = store.checkpoint.clone();

    let r = store.commit_listings(&key, vec![listing(2, 4), listing(3, 3)], true);
    assert!(r.is_err());
    assert_eq!(store.listings.len(), listings_before);
    assert_eq!(store.assocs.len(), assocs_before);
    assert_eq!(
        store.checkpoint.as_ref().map(|c| c.number),
        checkpoint_before.as_ref().map(|c| c.number)
    );
}

#[test]
fn commit_advances_the_checkpoint() {
    let mut store = Store::new();
    let key = pikachu_key();
    store
        .commit_listings(&key, Vec::new(), false)
        .expect("empty commit should still advance the checkpoint");
    let cp = store.checkpoint.as_ref().expect("checkpoint should exist");
    assert_eq!(cp.set_name, "Scarlet & Violet");
    assert_eq!(cp.expansion_number, 6);
    assert_eq!(cp.number, 25);
    store.clear_checkpoint();
    assert!(store.checkpoint.is_none());
}

#[test]
fn watermark_is_the_most_recent_recorded_date() {
    let mut store = Store::new();
    let key = pikachu_key();
    assert!(store.last_known_listing_date(&key).is_none());
    store
        .commit_listings(&key, vec![listing(1, 3), listing(2, 9), listing(3, 6)], false)
        .expect("commit should succeed");
    let d = store
        .last_known_listing_date(&key)
        .expect("a date should be recorded");
    assert_eq!(d.day, 9);

    let other = ItemKey {
        class: Class::ReverseHolo,
        ..pikachu_key()
    };
    assert!(store.last_known_listing_date(&other).is_none());
}

fn small_catalog() -> Vec<Expansion> {
    vec![
        Expansion {
            set_name: "Scarlet & Violet".to_owned(),
            expansion_name: "Temporal Forces".to_owned(),
            expansion_number: 5,
            expansion_total: 162,
            cards: vec![Pokemon {
                name: "Pikachu".to_owned(),
                number: 25,
                rarity: Rarity::Rare,
                class: vec![Class::Regular, Class::ReverseHolo],
            }],
        },
        Expansion {
            set_name: "Scarlet & Violet".to_owned(),
            expansion_name: "Stellar Crown".to_owned(),
            expansion_number: 7,
            expansion_total: 142,
            cards: vec![
                Pokemon {
                    name: "Eevee".to_owned(),
                    number: 133,
                    rarity: Rarity::Uncommon,
                    class: vec![Class::Regular],
                },
                Pokemon {
                    name: "Mew".to_owned(),
                    number: 151,
                    rarity: Rarity::UltraRare,
                    class: vec![Class::Foil],
                },
            ],
        },
    ]
}

#[test]
fn catalog_loading_is_idempotent() {
    let mut store = Store::new();
    let catalog = small_catalog();
    store.ensure_catalog_loaded(&catalog);
    assert_eq!(store.catalog.len(), 4);
    store.ensure_catalog_loaded(&catalog);
    assert_eq!(store.catalog.len(), 4);
    assert_eq!(store.catalog[0].name, "Pikachu");
    assert_eq!(store.catalog[0].class, Class::Regular);
    assert_eq!(store.catalog[1].class, Class::ReverseHolo);
}

#[test]
fn resume_restarts_when_the_checkpoint_is_stale() {
    let catalog = small_catalog();
    assert_eq!(resume_position(&catalog, None), (0, 0));

    let mut store = Store::new();
    let key = ItemKey {
        set_name: "Scarlet & Violet".to_owned(),
        expansion_number: 7,
        number: 151,
        class: Class::Foil,
    };
    store
        .commit_listings(&key, Vec::new(), false)
        .expect("commit should succeed");
    let cp = store.checkpoint.clone();
    assert_eq!(resume_position(&catalog, cp.as_ref()), (1, 1));

    let stale = ItemKey {
        set_name: "Another Era".to_owned(),
        expansion_number: 9,
        number: 1,
        class: Class::Regular,
    };
    let mut store2 = Store::new();
    store2
        .commit_listings(&stale, Vec::new(), false)
        .expect("commit should succeed");
    assert_eq!(
        resume_position(&catalog, store2.checkpoint.as_ref()),
        (0, 0)
    );
}

#[test]
fn the_watermark_makes_the_next_scrape_incremental() {
    fn row(id: u64, day: u32) -> cardwatch::extract::RowFields {
        cardwatch::extract::RowFields {
            class_names: Some("s-card".to_owned()),
            text: String::new(),
            caption: format!("Sold {day} Jan 2025"),
            title: "Pikachu".to_owned(),
            price_text: "£1.00".to_owned(),
            link: Some(format!("https://example.invalid/itm/{id}")),
            format_primary: "Buy It Now".to_owned(),
            format_secondary: None,
        }
    }

    let gbp = cardwatch::money::gbp();
    let key = pikachu_key();
    let mut store = Store::new();

    // First sweep: nothing recorded, every row is taken and committed.
    assert!(store.last_known_listing_date(&key).is_none());
    let mut acc = Vec::new();
    let r = cardwatch::extract::process_page(
        &vec![row(11, 7), row(12, 6), row(13, 5)],
        "Pikachu",
        &Class::Regular,
        &gbp,
        None,
        &mut acc,
    );
    assert!(matches!(r, Ok(cardwatch::extract::PageStatus::MorePages)));
    store
        .commit_listings(&key, acc, false)
        .expect("commit should succeed");

    // Second sweep: the recorded high-water mark stops at older rows.
    let watermark = store
        .last_known_listing_date(&key)
        .expect("a date should now be recorded");
    assert_eq!(watermark.day, 7);
    let mut acc = Vec::new();
    let r = cardwatch::extract::process_page(
        &vec![row(14, 9), row(15, 8), row(11, 7), row(13, 5)],
        "Pikachu",
        &Class::Regular,
        &gbp,
        Some(&watermark),
        &mut acc,
    );
    assert!(matches!(r, Ok(cardwatch::extract::PageStatus::Done)));
    let ids: Vec<u64> = acc.iter().map(|l| l.id).collect();
    assert_eq!(ids, vec![14, 15, 11]);
    store
        .commit_listings(&key, acc, false)
        .expect("commit should succeed");

    // The re-observed listing was not duplicated.
    let stored: Vec<u64> = store.listings.iter().map(|l| l.id).collect();
    assert_eq!(stored, vec![11, 12, 13, 14, 15]);
}

#[test]
fn an_empty_catalog_has_an_empty_plan() {
    assert!(sweep_plan(&Vec::new(), None).is_empty());
}

#[test]
fn sweep_plan_resumes_mid_catalog() {
    let catalog = small_catalog();
    let full = sweep_plan(&catalog, None);
    let units: Vec<(usize, usize, usize)> = full
        .iter()
        .map(|u| (u.expansion_idx, u.card_idx, u.class_idx))
        .collect();
    assert_eq!(units, vec![(0, 0, 0), (0, 0, 1), (1, 0, 0), (1, 1, 0)]);

    let mut store = Store::new();
    let key = ItemKey {
        set_name: "Scarlet & Violet".to_owned(),
        expansion_number: 7,
        number: 133,
        class: Class::Regular,
    };
    store
        .commit_listings(&key, Vec::new(), false)
        .expect("commit should succeed");
    let resumed = sweep_plan(&catalog, store.checkpoint.as_ref());
    let units: Vec<(usize, usize, usize)> = resumed
        .iter()
        .map(|u| (u.expansion_idx, u.card_idx, u.class_idx))
        .collect();
    assert_eq!(units, vec![(1, 0, 0), (1, 1, 0)]);
}
