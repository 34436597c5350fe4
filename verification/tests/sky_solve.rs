use faint_light::sky::{civil_from_days, days_from_civil, esc, format_utc_secs};
use faint_light::solve::{combos, Parity};

#[test]
fn civil_dates_round_trip() {
    assert_eq!(civil_from_days(0), (1970, 1, 1));
    assert_eq!(days_from_civil(2025, 7, 9), 20278);
    assert_eq!(civil_from_days(20278), (2025, 7, 9));
    for d in [-800_000i64, -1, 11_016, 20_513, 2_932_896] {
        let (y, m, dd) = civil_from_days(d);
        assert_eq!(days_from_civil(y, m, dd), d);
    }
    assert_eq!(days_from_civil(2000, 3, 1) - days_from_civil(2000, 2, 28), 2);
}

#[test]
fn utc_text() {
    assert_eq!(format_utc_secs(946_728_000), "2000-01-01 12:00:00");
    assert_eq!(format_utc_secs(1_783_945_845), "2026-07-13 12:30:45");
}

#[test]
fn svg_text_is_escaped() {
    assert_eq!(esc("a<b & c>d"), "a&lt;b &amp; c&gt;d");
}

#[test]
fn parity_from_nova() {
    assert_eq!(Parity::from_nova(0), Parity::Normal);
    assert_eq!(Parity::from_nova(1), Parity::Flip);
    assert_eq!(Parity::from_nova(2), Parity::Both);
    assert_eq!(Parity::from_nova(-1), Parity::Both);
}

#[test]
fn combinations_are_ascending_and_filtered() {
    let all = combos(4, 2, None);
    assert_eq!(
        all,
        vec![vec![0, 1], vec![0, 2], vec![0, 3], vec![1, 2], vec![1, 3], vec![2, 3]]
    );
    assert_eq!(combos(4, 2, Some(3)), vec![vec![0, 3], vec![1, 3], vec![2, 3]]);
    assert_eq!(combos(2, 3, None), Vec::<Vec<usize>>::new());
    assert_eq!(combos(3, 0, None), vec![Vec::<usize>::new()]);
}

#[test]
fn parity_from_a_form_field() {
    assert_eq!(Parity::from_field(None), Ok(Parity::Both));
    assert_eq!(Parity::from_field(Some("")), Ok(Parity::Both));
    assert_eq!(Parity::from_field(Some(" both ")), Ok(Parity::Both));
    assert_eq!(Parity::from_field(Some("flip")), Ok(Parity::Flip));
    assert_eq!(Parity::from_field(Some(" normal")), Ok(Parity::Normal));
    assert_eq!(
        Parity::from_field(Some("sideways")),
        Err("parity must be normal, flip or both (got \"sideways\")".to_string())
    );
}
