use bankstat::aggregate::sum_category_month;
use bankstat::amount::Amount;
use bankstat::date::Date;
use bankstat::record::Item;

fn record(year: u32, month: u32, day: u32, negative: bool, scaled: u128, category: &str) -> Item {
    Item::new(
        Date { year, month, day },
        "desc".to_string(),
        Amount { negative, scaled },
        category.to_string(),
    )
}

fn zero() -> Option<Amount> {
    Some(Amount { negative: false, scaled: 0 })
}

const ONE: u128 = 1_000_000_000_000;

#[test]
fn empty_data_sums_to_zero() {
    let data: Vec<Item> = Vec::new();
    assert_eq!(sum_category_month(&data, "Mat", 5), zero());
}

#[test]
fn sums_absolute_amounts_by_category_and_month() {
    let data = vec![
        record(2023, 5, 1, true, 100 * ONE, "Mat"),
        record(2023, 6, 1, false, 50 * ONE, "Mat"),
        record(2023, 5, 2, true, 20 * ONE, "Bil"),
    ];
    assert_eq!(
        sum_category_month(&data, "Mat", 5),
        Some(Amount { negative: false, scaled: 100 * ONE })
    );
    assert_eq!(
        sum_category_month(&data, "Bil", 5),
        Some(Amount { negative: false, scaled: 20 * ONE })
    );
    assert_eq!(
        sum_category_month(&data, "Mat", 6),
        Some(Amount { negative: false, scaled: 50 * ONE })
    );
}

#[test]
fn sums_across_years_for_the_same_month() {
    let data = vec![
        record(2022, 5, 3, false, 7 * ONE, "Mat"),
        record(2023, 5, 4, true, 3 * ONE, "Mat"),
    ];
    assert_eq!(
        sum_category_month(&data, "Mat", 5),
        Some(Amount { negative: false, scaled: 10 * ONE })
    );
}

#[test]
fn category_matching_is_case_sensitive() {
    let data = vec![
        record(2023, 5, 1, true, 100 * ONE, "Mat"),
        record(2023, 5, 2, false, 50 * ONE, "Mat"),
    ];
    assert_eq!(sum_category_month(&data, "mat", 5), zero());
    assert_eq!(sum_category_month(&data, "Mat ", 5), zero());
}

#[test]
fn overflowing_sum_returns_nothing() {
    let data = vec![
        record(2023, 5, 1, false, u128::MAX, "Mat"),
        record(2023, 5, 2, false, u128::MAX, "Mat"),
    ];
    assert_eq!(sum_category_month(&data, "Mat", 5), None);
}
