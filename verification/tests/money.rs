use cardwatch::money::Currency;
use cardwatch::money::Money;

#[test]
fn it_works_with_a_left_aligned_exponent() {
    let gbp = Currency {
        symbol: '£',
        exponent_seperator: '.',
        digit_seperator: ',',
        exponent: 2,
    };

    let Ok(money) = Money::from_str("£1,000,000.50", &gbp) else {
        panic!("Failed to parse money");
    };

    assert!(money.total == 100000050);
}

#[test]
fn it_works_with_a_right_aligned_exponent() {
    let gbp = Currency {
        symbol: '£',
        exponent_seperator: '.',
        digit_seperator: ',',
        exponent: 2,
    };

    let Ok(money) = Money::from_str("£1,000,000.05", &gbp) else {
        panic!("Failed to parse money");
    };

    assert!(money.total == 100000005);
}

#[test]
fn it_works_with_no_exponent() {
    let gbp = Currency {
        symbol: '£',
        exponent_seperator: '.',
        digit_seperator: ',',
        exponent: 2,
    };

    let Ok(money) = Money::from_str("£1,000,000", &gbp) else {
        panic!("Failed to parse money");
    };

    assert!(money.total == 100000000);
}

#[test]
fn it_works_with_no_formatting() {
    let gbp = Currency {
        symbol: '£',
        exponent_seperator: '.',
        digit_seperator: ',',
        exponent: 2,
    };

    let Ok(money) = Money::from_str("1000000", &gbp) else {
        panic!("Failed to parse money");
    };

    assert!(money.total == 100000000);
}

#[test]
fn it_converts_to_a_u64() {
    let gbp = Currency {
        symbol: '£',
        exponent_seperator: '.',
        digit_seperator: ',',
        exponent: 2,
    };

    let Ok(money) = Money::from_str("1000000", &gbp) else {
        panic!("Failed to parse money");
    };

    assert!(std::convert::Into::<u64>::into(&money) == 100000000);
}

#[test]
fn it_implements_display() {
    let gbp = Currency {
        symbol: '£',
        exponent_seperator: '.',
        digit_seperator: ',',
        exponent: 2,
    };

    let Ok(money) = Money::from_str("£1,234.05", &gbp) else {
        panic!("Failed to parse money");
    };

    assert!(money.format() == "£1234.05");
}

#[test]
fn too_many_separators_are_rejected() {
    let gbp = cardwatch::money::gbp();
    let r = Money::from_str("1.2.3", &gbp);
    assert_eq!(r.unwrap_err(), "Invalid number of parts");
}

#[test]
fn letters_are_rejected() {
    let gbp = cardwatch::money::gbp();
    let r = Money::from_str("about a fiver", &gbp);
    assert_eq!(r.unwrap_err(), "Failed to parse total");
}

#[test]
fn overflowing_amounts_are_rejected() {
    let gbp = cardwatch::money::gbp();
    let r = Money::from_str("99999999999999999999999.00", &gbp);
    assert_eq!(r.unwrap_err(), "Failed to parse total");
}

#[test]
fn parse_format_parse_is_idempotent() {
    let gbp = cardwatch::money::gbp();
    let first = Money::from_str("£1,234.56", &gbp).expect("Failed to parse money");
    let formatted = first.format();
    let second = Money::from_str(formatted.as_str(), &gbp).expect("Failed to reparse money");
    assert_eq!(first, second);
    assert_eq!(second.total, 123456);
}

#[test]
fn format_pads_the_minor_units() {
    let gbp = cardwatch::money::gbp();
    let m = Money {
        currency: gbp,
        total: 5,
    };
    assert_eq!(m.format(), "£0.05");
}
