use cch_23::json::{Json, JsonNumber};
use cch_23::routes::day8::{weight_from_response, WeightError};

fn obj(members: Vec<(&str, Json)>) -> Json {
    Json::Object(members.into_iter().map(|(k, v)| (k.to_string(), v)).collect())
}

fn answer(weight: Json) -> Json {
    obj(vec![(
        "data",
        obj(vec![(
            "pokemon",
            Json::Array(vec![obj(vec![
                ("id", Json::Number(JsonNumber::PosInt(25))),
                ("name", Json::Str("pikachu".to_string())),
                ("weight", weight),
            ])]),
        )]),
    )])
}

fn as_f64(n: JsonNumber) -> f64 {
    match n {
        JsonNumber::PosInt(u) => u as f64,
        JsonNumber::NegInt(i) => i as f64,
        JsonNumber::Float(bits) => f64::from_bits(bits),
    }
}

#[test]
fn weight_returns_correct_weight_for_pokemon() {
    let weight = weight_from_response(&answer(Json::Number(JsonNumber::PosInt(60)))).unwrap();
    let kilograms = as_f64(weight) as f32 / 10f32;
    assert_eq!("6", kilograms.to_string());
}

#[test]
fn drop_returns_correct_momentum_for_pokemon() {
    let weight = weight_from_response(&answer(Json::Number(JsonNumber::PosInt(60)))).unwrap();
    let speed = (2f32 * 9.825f32 * 10f32).sqrt();
    let momentum = ((as_f64(weight) / 10f64) as f32) * speed;
    let target = "84.10707461325713".parse::<f32>().unwrap();
    assert!(target + 0.001 >= momentum && target - 0.001 <= momentum);
}

#[test]
fn weight_errors() {
    assert_eq!(weight_from_response(&Json::Null), Err(WeightError::NoData));
    assert_eq!(weight_from_response(&obj(vec![("data", Json::Null)])), Err(WeightError::NoPokemon));
    assert_eq!(
        weight_from_response(&obj(vec![("data", obj(vec![("pokemon", Json::Bool(true))]))])),
        Err(WeightError::PokemonNotArray)
    );
    assert_eq!(
        weight_from_response(&obj(vec![("data", obj(vec![("pokemon", Json::Array(vec![]))]))])),
        Err(WeightError::NoFirstPokemon)
    );
    assert_eq!(
        weight_from_response(&obj(vec![(
            "data",
            obj(vec![("pokemon", Json::Array(vec![obj(vec![])]))])
        )])),
        Err(WeightError::NoWeight)
    );
    assert_eq!(
        weight_from_response(&answer(Json::Str("60".to_string()))),
        Err(WeightError::WeightNotNumber)
    );
    assert_eq!(
        weight_from_response(&answer(Json::Number(JsonNumber::Float(2.5f64.to_bits())))),
        Ok(JsonNumber::Float(2.5f64.to_bits()))
    );
}

#[test]
fn later_member_of_a_repeated_key_counts() {
    let doc = obj(vec![("data", Json::Null), ("data", obj(vec![("pokemon", Json::Null)]))]);
    assert_eq!(weight_from_response(&doc), Err(WeightError::PokemonNotArray));
}
