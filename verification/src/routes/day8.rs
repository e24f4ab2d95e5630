//! `GET /8/weight/<id>` and `GET /8/drop/<id>`: the weight of a pokemon, read
//! from the JSON that the PokeAPI GraphQL endpoint answers with.
use vstd::prelude::*;
use vstd::string::StringExecFns;

use crate::json::{json_get, Json, JsonNumber};

verus! {

/// Why the PokeAPI answer holds no weight.
#[derive(Debug, Clone, Copy, PartialEq, Eq, Structural)]
pub enum WeightError {
    /// No member `data`.
    NoData,
    /// No member `data.pokemon`.
    NoPokemon,
    /// `data.pokemon` is not an array.
    PokemonNotArray,
    /// `data.pokemon` is empty.
    NoFirstPokemon,
    /// The first pokemon has no member `weight`.
    NoWeight,
    /// The weight is not a number.
    WeightNotNumber,
}

/// The weight in the answer: `data.pokemon[0].weight`, which must be a number.
pub open spec fn weight_spec(answer: Json) -> Result<JsonNumber, WeightError> {
    match json_get(answer, "data"@) {
        None => Err(WeightError::NoData),
        Some(data) => match json_get(data, "pokemon"@) {
            None => Err(WeightError::NoPokemon),
            Some(Json::Array(list)) => if list@.len() == 0 {
                Err(WeightError::NoFirstPokemon)
            } else {
                match json_get(list@[0], "weight"@) {
                    None => Err(WeightError::NoWeight),
                    Some(Json::Number(n)) => Ok(n),
                    Some(_) => Err(WeightError::WeightNotNumber),
                }
            },
            Some(_) => Err(WeightError::PokemonNotArray),
        },
    }
}

/// The weight of the first pokemon in a PokeAPI answer (in hectograms).
pub fn weight_from_response(answer: &Json) -> (r: Result<JsonNumber, WeightError>)
    ensures
        r == weight_spec(*answer),
{
    let data_key = String::from_str("data");
    let data = match answer.get(&data_key) {
        None => {
            return Err(WeightError::NoData);
        },
        Some(d) => d,
    };
    let pokemon_key = String::from_str("pokemon");
    let list = match data.get(&pokemon_key) {
        None => {
            return Err(WeightError::NoPokemon);
        },
        Some(Json::Array(list)) => list,
        Some(_) => {
            return Err(WeightError::PokemonNotArray);
        },
    };
    if list.len() == 0 {
        return Err(WeightError::NoFirstPokemon);
    }
    let weight_key = String::from_str("weight");
    match list[0].get(&weight_key) {
        None => Err(WeightError::NoWeight),
        Some(Json::Number(n)) => Ok(*n),
        Some(_) => Err(WeightError::WeightNotNumber),
    }
}

} // verus!
