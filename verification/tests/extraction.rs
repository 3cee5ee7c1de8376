use cardwatch::catalog::Class;
use cardwatch::extract::classify_format;
use cardwatch::extract::parse_listing_id;
use cardwatch::extract::parse_sale_date;
use cardwatch::extract::process_page;
use cardwatch::extract::title_matches;
use cardwatch::extract::variant_accepts;
use cardwatch::extract::BuyingFormat;
use cardwatch::extract::PageStatus;
use cardwatch::extract::RowFields;
use cardwatch::extract::SaleDate;

fn card_row(caption: &str, title: &str) -> RowFields {
    RowFields {
        class_names: Some("s-card vertical".to_owned()),
        text: String::new(),
        caption: caption.to_owned(),
        title: title.to_owned(),
        price_text: "£1.00".to_owned(),
        link: Some("https://example.invalid/itm/123456?hash=abc".to_owned()),
        format_primary: "Buy It Now".to_owned(),
        format_secondary: None,
    }
}

#[test]
fn watermark_early_stop_returns_prefix() {
    let rows = vec![
        card_row("Sold 5 Jan 2025", "Pikachu"),
        card_row("Sold 4 Jan 2025", "Pikachu"),
        card_row("Sold 3 Jan 2025", "Pikachu"),
        card_row("Sold 2 Jan 2025", "Pikachu"),
        card_row("Sold 1 Jan 2025", "Pikachu"),
    ];
    let watermark = SaleDate {
        year: 2025,
        month: 1,
        day: 3,
    };
    let gbp = cardwatch::money::gbp();
    let mut acc = Vec::new();
    let r = process_page(&rows, "Pikachu", &Class::Foil, &gbp, Some(&watermark), &mut acc);
    assert!(matches!(r, Ok(PageStatus::Done)));
    let days: Vec<u32> = acc.iter().map(|l| l.date.day).collect();
    assert_eq!(days, vec![5, 4, 3]);
}

#[test]
fn page_without_watermark_takes_everything() {
    let rows = vec![
        card_row("Sold 5 Jan 2025", "Pikachu"),
        card_row("Sold 4 Jan 2025", "Pikachu"),
    ];
    let gbp = cardwatch::money::gbp();
    let mut acc = Vec::new();
    let r = process_page(&rows, "Pikachu", &Class::Foil, &gbp, None, &mut acc);
    assert!(matches!(r, Ok(PageStatus::MorePages)));
    assert_eq!(acc.len(), 2);
    assert_eq!(acc[0].id, 123456);
    assert_eq!(acc[0].link, "https://example.invalid/itm/123456");
    assert_eq!(acc[0].price.total, 100);
}

#[test]
fn sentinel_row_ends_extraction() {
    let sentinel = RowFields {
        class_names: Some("srp-river-answer".to_owned()),
        text: "Results matching fewer words".to_owned(),
        caption: String::new(),
        title: String::new(),
        price_text: String::new(),
        link: None,
        format_primary: String::new(),
        format_secondary: None,
    };
    let rows = vec![
        card_row("Sold 5 Jan 2025", "Pikachu"),
        sentinel,
        card_row("Sold 4 Jan 2025", "Pikachu"),
    ];
    let gbp = cardwatch::money::gbp();
    let mut acc = Vec::new();
    let r = process_page(&rows, "Pikachu", &Class::Foil, &gbp, None, &mut acc);
    assert!(matches!(r, Ok(PageStatus::Done)));
    assert_eq!(acc.len(), 1);
}

#[test]
fn unparsable_price_skips_the_row_only() {
    let mut bad = card_row("Sold 5 Jan 2025", "Pikachu");
    bad.price_text = "1.2.3".to_owned();
    let rows = vec![bad, card_row("Sold 4 Jan 2025", "Pikachu")];
    let gbp = cardwatch::money::gbp();
    let mut acc = Vec::new();
    let r = process_page(&rows, "Pikachu", &Class::Foil, &gbp, None, &mut acc);
    assert!(matches!(r, Ok(PageStatus::MorePages)));
    assert_eq!(acc.len(), 1);
    assert_eq!(acc[0].date.day, 4);
}

#[test]
fn unparsable_date_is_fatal() {
    let mut bad = card_row("Sold whenever", "Pikachu");
    bad.caption = "Sold whenever".to_owned();
    let rows = vec![bad];
    let gbp = cardwatch::money::gbp();
    let mut acc = Vec::new();
    let r = process_page(&rows, "Pikachu", &Class::Foil, &gbp, None, &mut acc);
    assert!(matches!(r, Err(cardwatch::extract::ExtractError::BadDate)));
}

#[test]
fn unreadable_listing_id_is_fatal() {
    let mut bad = card_row("Sold 5 Jan 2025", "Pikachu");
    bad.link = Some("https://example.invalid/itm/not-a-number".to_owned());
    let rows = vec![bad];
    let gbp = cardwatch::money::gbp();
    let mut acc = Vec::new();
    let r = process_page(&rows, "Pikachu", &Class::Foil, &gbp, None, &mut acc);
    assert!(matches!(r, Err(cardwatch::extract::ExtractError::BadId)));
}

#[test]
fn unreadable_buying_format_is_fatal() {
    let mut bad = card_row("Sold 5 Jan 2025", "Pikachu");
    bad.format_primary = "something new".to_owned();
    bad.format_secondary = Some("ended".to_owned());
    let rows = vec![bad];
    let gbp = cardwatch::money::gbp();
    let mut acc = Vec::new();
    let r = process_page(&rows, "Pikachu", &Class::Foil, &gbp, None, &mut acc);
    assert!(matches!(r, Err(cardwatch::extract::ExtractError::BadFormat)));
}

#[test]
fn variant_filtering_is_asymmetric() {
    assert!(!variant_accepts(&Class::Regular, "Pikachu (Reverse Holo)"));
    assert!(variant_accepts(&Class::ReverseHolo, "Pikachu (Reverse Holo)"));
    assert!(!variant_accepts(&Class::ReverseHolo, "Pikachu"));
    assert!(variant_accepts(&Class::Regular, "Pikachu"));
    assert!(variant_accepts(&Class::Foil, "Pikachu (Reverse Holo)"));
    assert!(variant_accepts(&Class::Foil, "Pikachu"));
}

#[test]
fn reverse_holo_rejects_regular_cue() {
    assert!(!variant_accepts(&Class::ReverseHolo, "Pikachu Regular Holo"));
}

#[test]
fn title_matching_is_case_insensitive() {
    assert!(title_matches("PIKACHU EX 123/456 near mint", "pikachu ex"));
    assert!(!title_matches("Charizard 001/234", "Pikachu"));
}

#[test]
fn title_matching_accepts_scattered_tokens() {
    assert!(title_matches("Pikachu 2024 holo ex mint", "Pikachu ex"));
}

#[test]
fn sale_dates_parse_through_the_caption() {
    let d = parse_sale_date("Sold 12 Jan 2025").expect("date should parse");
    assert_eq!(
        d,
        SaleDate {
            year: 2025,
            month: 1,
            day: 12
        }
    );
    assert!(parse_sale_date("Sold soon").is_none());
}

#[test]
fn listing_ids_come_from_the_final_path_segment() {
    assert_eq!(
        parse_listing_id("https://example.invalid/itm/987654321?a=1&b=2"),
        Some(987654321)
    );
    assert_eq!(parse_listing_id("https://example.invalid/itm/42"), Some(42));
    assert_eq!(parse_listing_id("https://example.invalid/itm/name"), None);
    assert_eq!(parse_listing_id(""), None);
}

#[test]
fn buying_formats_classify_from_text() {
    assert_eq!(
        classify_format("Buy It Now", None),
        Some(BuyingFormat::BuyItNow {
            accepts_offers: false,
            offer_was_accepted: false
        })
    );
    assert_eq!(
        classify_format("or Best Offer", None),
        Some(BuyingFormat::BuyItNow {
            accepts_offers: true,
            offer_was_accepted: false
        })
    );
    assert_eq!(
        classify_format("Best Offer accepted", None),
        Some(BuyingFormat::BuyItNow {
            accepts_offers: true,
            offer_was_accepted: true
        })
    );
    assert_eq!(
        classify_format("12 bids", Some("Best Offer accepted")),
        Some(BuyingFormat::Auction {
            bids: 12,
            offer_was_accepted: true
        })
    );
    assert_eq!(
        classify_format("7 bids", Some("ended")),
        Some(BuyingFormat::Auction {
            bids: 7,
            offer_was_accepted: false
        })
    );
    assert_eq!(classify_format("no numbers here", Some("ended")), None);
}

#[test]
fn format_getters_expose_the_fields() {
    let auction = BuyingFormat::Auction {
        bids: 3,
        offer_was_accepted: true,
    };
    let bin = BuyingFormat::BuyItNow {
        accepts_offers: true,
        offer_was_accepted: false,
    };
    assert_eq!(auction.get_bids(), Some(3));
    assert_eq!(bin.get_bids(), None);
    assert_eq!(auction.get_accepts_offers(), None);
    assert_eq!(bin.get_accepts_offers(), Some(true));
    assert!(auction.get_offer_was_accepted());
    assert!(!bin.get_offer_was_accepted());
}
