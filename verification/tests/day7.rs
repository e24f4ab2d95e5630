use std::collections::HashMap;

use cch_23::bakery::{BakeReply, Bakery, Ingredient, RecipeParseError};
use cch_23::json::{Json, JsonNumber};
use cch_23::routes::{day7, seven};

fn json_from_value(v: serde_json::Value) -> Json {
    match v {
        serde_json::Value::Null => Json::Null,
        serde_json::Value::Bool(b) => Json::Bool(b),
        serde_json::Value::Number(n) => Json::Number(if let Some(u) = n.as_u64() {
            JsonNumber::PosInt(u)
        } else if let Some(i) = n.as_i64() {
            JsonNumber::NegInt(i)
        } else {
            JsonNumber::Float(n.as_f64().unwrap().to_bits())
        }),
        serde_json::Value::String(s) => Json::Str(s),
        serde_json::Value::Array(a) => Json::Array(a.into_iter().map(json_from_value).collect()),
        serde_json::Value::Object(o) => {
            Json::Object(o.into_iter().map(|(k, v)| (k, json_from_value(v))).collect())
        }
    }
}

fn table(list: &[Ingredient]) -> HashMap<String, u64> {
    list.iter().map(|i| (i.name.clone(), i.amount)).collect()
}

fn ingredients(pairs: &[(&str, u64)]) -> Vec<Ingredient> {
    pairs.iter().map(|(n, a)| Ingredient { name: n.to_string(), amount: *a }).collect()
}

fn bake_cookie(cookie: &str) -> BakeReply {
    let bytes = day7::get_recipe_from_header(cookie).unwrap();
    let value: serde_json::Value = serde_json::from_slice(&bytes).unwrap();
    let bakery = day7::split_recipe_from_pantry(&json_from_value(value)).unwrap();
    day7::calculate_cookies(bakery)
}

#[test]
fn decode_correctly_returns_the_recipe() {
    let bytes =
        day7::get_recipe_from_header("recipe=eyJmbG91ciI6MTAwLCJjaG9jb2xhdGUgY2hpcHMiOjIwfQ==")
            .unwrap();
    let result: serde_json::Value = serde_json::from_slice(&bytes).unwrap();
    let answer_key: serde_json::Value =
        serde_json::from_str(r#"{"flour": 100, "chocolate chips": 20}"#).unwrap();
    assert_eq!(result, answer_key);
}

#[test]
fn bake_correctly_returns_the_number_of_cookies_possible_with_remaining_pantry() {
    let reply = bake_cookie("recipe=eyJyZWNpcGUiOnsiZmxvdXIiOjk1LCJzdWdhciI6NTAsImJ1dHRlciI6MzAsImJha2luZyBwb3dkZXIiOjEwLCJjaG9jb2xhdGUgY2hpcHMiOjUwfSwicGFudHJ5Ijp7ImZsb3VyIjozODUsInN1Z2FyIjo1MDcsImJ1dHRlciI6MjEyMiwiYmFraW5nIHBvd2RlciI6ODY1LCJjaG9jb2xhdGUgY2hpcHMiOjQ1N319");
    assert_eq!(reply.cookies, 4);
    let expected: HashMap<String, u64> = [
        ("flour", 5),
        ("sugar", 307),
        ("butter", 2002),
        ("baking powder", 825),
        ("chocolate chips", 257),
    ]
    .iter()
    .map(|(k, v)| (k.to_string(), *v))
    .collect();
    assert_eq!(table(&reply.pantry), expected);
}

#[test]
fn bake_correctly_returns_number_of_cookies_possible_with_remaining_pantry_when_random_ingredients_exist(
) {
    let reply = bake_cookie("recipe=eyJyZWNpcGUiOnsic2xpbWUiOjl9LCJwYW50cnkiOnsiY29iYmxlc3RvbmUiOjY0LCJzdGljayI6IDR9fQ==");
    assert_eq!(reply.cookies, 0);
    let expected: HashMap<String, u64> =
        [("cobblestone", 64), ("stick", 4)].iter().map(|(k, v)| (k.to_string(), *v)).collect();
    assert_eq!(table(&reply.pantry), expected);
}

#[test]
fn cookie_errors() {
    assert_eq!(day7::get_recipe_from_header("recipe"), Err(RecipeParseError::BadlyFormedCookie));
    assert_eq!(day7::get_recipe_from_header("recipe=!!!"), Err(RecipeParseError::Base64Decode));
    assert_eq!(day7::get_recipe_from_header("recipe=e30"), Err(RecipeParseError::Base64Decode));
    assert_eq!(day7::get_recipe_from_header("recipe="), Ok(vec![]));
    // The value starts after the first `=`; later ones belong to it.
    assert_eq!(day7::get_recipe_from_header("recipe=YQ=="), Ok(b"a".to_vec()));
    // 0xff is no UTF-8.
    assert_eq!(day7::get_recipe_from_header("recipe=/w=="), Ok(vec![0xff]));
    assert_eq!(seven::get_recipe_from_header("recipe=/w=="), Err(RecipeParseError::NotUtf8));
    assert_eq!(seven::get_recipe_from_header("recipe=YQ=="), Ok(b"a".to_vec()));
    assert_eq!(seven::get_recipe_from_header("x"), Err(RecipeParseError::BadlyFormedCookie));
}

#[test]
fn split_errors() {
    let parse = |s: &str| {
        day7::split_recipe_from_pantry(&json_from_value(serde_json::from_str(s).unwrap()))
            .map(|b| (table(&b.recipe), table(&b.pantry)))
    };
    assert_eq!(parse(r#"{"pantry": {}}"#), Err(RecipeParseError::MissingRecipe));
    assert_eq!(parse(r#"[1, 2]"#), Err(RecipeParseError::MissingRecipe));
    assert_eq!(parse(r#"{"recipe": 3, "pantry": {}}"#), Err(RecipeParseError::RecipeNotObject));
    assert_eq!(parse(r#"{"recipe": {}}"#), Err(RecipeParseError::MissingPantry));
    assert_eq!(parse(r#"{"recipe": {}, "pantry": []}"#), Err(RecipeParseError::PantryNotObject));
    let (recipe, pantry) =
        parse(r#"{"recipe": {"a": 2, "b": -1, "c": 1.5, "d": "x"}, "pantry": {"a": 7}}"#).unwrap();
    let expected: HashMap<String, u64> =
        [("a", 2), ("b", 0), ("c", 0), ("d", 0)].iter().map(|(k, v)| (k.to_string(), *v)).collect();
    assert_eq!(recipe, expected);
    assert_eq!(pantry.get("a"), Some(&7));
}

#[test]
fn zero_amount_bakes_nothing_but_keeps_the_pantry_of_the_recipe() {
    let bakery = Bakery {
        recipe: ingredients(&[("flour", 0), ("sugar", 2)]),
        pantry: ingredients(&[("flour", 5), ("sugar", 9), ("salt", 1)]),
    };
    let reply = day7::calculate_cookies(bakery);
    assert_eq!(reply.cookies, 0);
    assert_eq!(reply.pantry, ingredients(&[("flour", 5), ("sugar", 9)]));
}

#[test]
fn bake_leftover_is_less_than_one_more_cookie() {
    let bakery = Bakery {
        recipe: ingredients(&[("flour", 3), ("sugar", 2)]),
        pantry: ingredients(&[("sugar", 9), ("flour", 10), ("salt", 1)]),
    };
    let reply = day7::calculate_cookies(bakery);
    assert_eq!(reply.cookies, 3);
    assert_eq!(reply.pantry, ingredients(&[("flour", 1), ("sugar", 3)]));
    assert!(reply.pantry[0].amount < 3);
}

#[test]
fn bake_results_do_not_depend_on_recipe_order() {
    let one = day7::calculate_cookies(Bakery {
        recipe: ingredients(&[("a", 2), ("b", 5), ("c", 1)]),
        pantry: ingredients(&[("a", 9), ("b", 26), ("c", 4)]),
    });
    let other = day7::calculate_cookies(Bakery {
        recipe: ingredients(&[("c", 1), ("a", 2), ("b", 5)]),
        pantry: ingredients(&[("a", 9), ("b", 26), ("c", 4)]),
    });
    assert_eq!(one.cookies, 4);
    assert_eq!(other.cookies, 4);
    assert_eq!(table(&one.pantry), table(&other.pantry));
}

#[test]
fn empty_recipe_bakes_nothing() {
    let reply = day7::calculate_cookies(Bakery::default());
    assert_eq!(reply.cookies, 0);
    assert!(reply.pantry.is_empty());
}

#[test]
fn checked_bake_refuses_an_unnamed_zero_ingredient() {
    let bakery = Bakery { recipe: ingredients(&[("air", 0)]), pantry: ingredients(&[]) };
    assert!(!day7::can_bake(&bakery));
    assert!(day7::checked_calculate_cookies(bakery).is_none());
    let bakery = Bakery {
        recipe: ingredients(&[("air", 0), ("gold", 1)]),
        pantry: ingredients(&[]),
    };
    assert!(day7::can_bake(&bakery));
    let reply = day7::checked_calculate_cookies(bakery).unwrap();
    assert_eq!(reply.cookies, 0);
    assert!(reply.pantry.is_empty());
}

#[test]
fn in_order_bake_stops_at_the_first_lacking_ingredient() {
    let pantry = ingredients(&[("a", 4), ("b", 1)]);
    let bakery = Bakery { recipe: ingredients(&[("a", 2), ("b", 3)]), pantry };
    let reply = seven::calculate_cookies(bakery);
    assert_eq!(reply.cookies, 0);
    assert_eq!(reply.pantry, ingredients(&[("a", 4), ("b", 1)]));

    let bakery = Bakery {
        recipe: ingredients(&[("a", 2), ("b", 1)]),
        pantry: ingredients(&[("b", 7), ("a", 5)]),
    };
    let reply = seven::calculate_cookies(bakery);
    assert_eq!(reply.cookies, 2);
    assert_eq!(reply.pantry, ingredients(&[("a", 1), ("b", 5)]));

    // A zero amount after the stop is never divided by.
    let bakery = Bakery {
        recipe: ingredients(&[("x", 1), ("a", 0)]),
        pantry: ingredients(&[("a", 5)]),
    };
    assert!(seven::can_bake(&bakery));
    assert_eq!(seven::checked_calculate_cookies(bakery).unwrap().cookies, 0);
    // A zero amount before it would be.
    let bakery = Bakery {
        recipe: ingredients(&[("a", 0), ("x", 1)]),
        pantry: ingredients(&[("a", 5)]),
    };
    assert!(!seven::can_bake(&bakery));
    assert!(seven::checked_calculate_cookies(bakery).is_none());
}
