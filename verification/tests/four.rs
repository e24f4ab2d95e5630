use cch_23::routes::four::{
    determine_winners, speed_order_key, total_strength, winner_index, ContestError,
    ContestWinners, Criterion, Reindeer, ReindeerContestEntry,
};

fn deer(name: &str, strength: u32) -> Reindeer {
    Reindeer { name: name.to_string(), strength }
}

fn entry(
    name: &str,
    strength: u32,
    speed: f32,
    height: u32,
    antler_width: u32,
    snow_magic_power: u32,
    favorite_food: &str,
    candies: u32,
) -> ReindeerContestEntry {
    ReindeerContestEntry {
        name: name.to_string(),
        strength,
        speed_bits: speed.to_bits(),
        height,
        antler_width,
        snow_magic_power,
        favorite_food: favorite_food.to_string(),
        candies_eaten_yesterday: candies,
    }
}

#[test]
fn strength_returns_correct_number() {
    let team = vec![deer("Dasher", 5), deer("Dancer", 6), deer("Prancer", 4), deer("Vixen", 7)];
    let result = total_strength(&team).unwrap();
    assert_eq!("22", result.to_string());
}

#[test]
fn strength_of_nobody_is_zero_and_overflow_is_reported() {
    assert_eq!(total_strength(&vec![]), Some(0));
    assert_eq!(total_strength(&vec![deer("a", u32::MAX), deer("b", 0)]), Some(u32::MAX));
    assert_eq!(total_strength(&vec![deer("a", u32::MAX), deer("b", 1)]), None);
}

#[test]
fn contest_returns_correct_json() {
    let field = vec![
        entry("Dasher", 5, 50.4, 80, 36, 9001, "hay", 2),
        entry("Dancer", 6, 48.2, 65, 37, 4004, "grass", 5),
    ];
    let answer_key = ContestWinners {
        fastest: "Speeding past the finish line with a strength of 5 is Dasher".to_string(),
        tallest: "Dasher is standing tall with his 36 cm wide antlers".to_string(),
        magician: "Dasher could blast you away with a snow magic power of 9001".to_string(),
        consumer: "Dancer ate lots of candies, but also some grass".to_string(),
    };
    assert_eq!(determine_winners(&field), Ok(answer_key));
}

#[test]
fn contest_without_reindeer_has_no_winners() {
    assert_eq!(determine_winners(&vec![]), Err(ContestError::NoReindeer));
}

#[test]
fn contest_ties_go_to_the_last_contestant() {
    let field = vec![
        entry("A", 1, 3.0, 10, 1, 7, "hay", 4),
        entry("B", 20, 3.0, 10, 2, 7, "hay", 4),
        entry("C", 3, 1.0, 9, 3, 6, "hay", 1),
    ];
    let w = determine_winners(&field).unwrap();
    assert_eq!(w.fastest, "Speeding past the finish line with a strength of 20 is B");
    assert_eq!(w.tallest, "B is standing tall with his 2 cm wide antlers");
    assert_eq!(w.magician, "B could blast you away with a snow magic power of 7");
    assert_eq!(w.consumer, "B ate lots of candies, but also some grass");
    // The same choice as `max_by_key`, which keeps the last maximum.
    let last = field.iter().enumerate().max_by_key(|(_, d)| d.height).unwrap().0;
    assert_eq!(winner_index(&field, Criterion::Height), last);
}

#[test]
fn speed_order_matches_total_cmp() {
    let samples = [
        f32::NEG_INFINITY,
        -1.5,
        -0.0,
        0.0,
        1e-40,
        2.5,
        f32::MAX,
        f32::INFINITY,
        f32::NAN,
        -f32::NAN,
        50.4,
        48.2,
    ];
    for a in samples {
        for b in samples {
            let by_key = speed_order_key(a.to_bits()).cmp(&speed_order_key(b.to_bits()));
            assert_eq!(by_key, a.total_cmp(&b), "{} {}", a, b);
        }
    }
}

#[test]
fn fastest_follows_max_by_total_cmp() {
    let field = vec![
        entry("Slow", 1, -2.0, 1, 1, 1, "hay", 1),
        entry("Nan", 1, f32::NAN, 1, 1, 1, "hay", 1),
        entry("Fast", 1, 99.0, 1, 1, 1, "hay", 1),
    ];
    let expected = field
        .iter()
        .enumerate()
        .max_by(|(_, a), (_, b)| f32::from_bits(a.speed_bits).total_cmp(&f32::from_bits(b.speed_bits)))
        .unwrap()
        .0;
    assert_eq!(winner_index(&field, Criterion::Speed), expected);
    assert_eq!(expected, 1);
}
