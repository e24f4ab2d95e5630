use cch_23::bakery::{amount_in, insert_amount, Bakery, Ingredient};
use cch_23::json::{Json, JsonNumber};
use cch_23::routes::{day7, seven};

fn ingredients(pairs: &[(&str, u64)]) -> Vec<Ingredient> {
    pairs.iter().map(|(n, a)| Ingredient { name: n.to_string(), amount: *a }).collect()
}

#[test]
fn insert_amount_replaces_or_appends() {
    let mut list = ingredients(&[("a", 1), ("b", 2)]);
    insert_amount(&mut list, "b".to_string(), 5);
    assert_eq!(list, ingredients(&[("a", 1), ("b", 5)]));
    insert_amount(&mut list, "c".to_string(), 0);
    assert_eq!(list, ingredients(&[("a", 1), ("b", 5), ("c", 0)]));
    assert_eq!(amount_in(&list, &"b".to_string()), Some(5));
    assert_eq!(amount_in(&list, &"d".to_string()), None);
}

#[test]
fn both_bakes_agree_without_zero_amounts() {
    let cases: Vec<(Vec<Ingredient>, Vec<Ingredient>)> = vec![
        (ingredients(&[("a", 2), ("b", 3)]), ingredients(&[("a", 9), ("b", 9)])),
        (ingredients(&[("a", 2), ("b", 3)]), ingredients(&[("a", 9)])),
        (ingredients(&[("a", 20), ("b", 3)]), ingredients(&[("a", 9), ("b", 9)])),
        (ingredients(&[]), ingredients(&[("a", 9)])),
    ];
    for (recipe, pantry) in cases {
        let copy = |v: &Vec<Ingredient>| -> Vec<Ingredient> {
            v.iter().map(|i| Ingredient { name: i.name.clone(), amount: i.amount }).collect()
        };
        let one = day7::calculate_cookies(Bakery { recipe: copy(&recipe), pantry: copy(&pantry) });
        let other = seven::calculate_cookies(Bakery { recipe, pantry });
        assert_eq!(one.cookies, other.cookies);
        assert_eq!(one.pantry, other.pantry);
    }
}

#[test]
fn json_members_and_numbers() {
    let doc = Json::Object(vec![
        ("n".to_string(), Json::Number(JsonNumber::PosInt(3))),
        ("m".to_string(), Json::Number(JsonNumber::NegInt(-3))),
        ("n".to_string(), Json::Number(JsonNumber::PosInt(4))),
    ]);
    assert_eq!(doc.get(&"n".to_string()).and_then(|v| v.as_u64()), Some(4));
    assert_eq!(doc.get(&"m".to_string()).and_then(|v| v.as_u64()), None);
    assert!(doc.get(&"x".to_string()).is_none());
    assert!(Json::Array(vec![]).get(&"n".to_string()).is_none());
}
