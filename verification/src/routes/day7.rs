//! `GET /7/decode` and `GET /7/bake`: a base64 recipe cookie, and how many
//! cookies its recipe and pantry allow. An ingredient that the recipe needs in
//! amount 0 allows no cookies.
use vstd::prelude::*;

use crate::bakery::{
    amount_in, amounts, batches, blocked, lemma_batches_least, leftover, leftover_pantry,
    per_ingredient, short_of, stocked, BakeReply, Bakery,
};

pub use crate::bakery::split_recipe_from_pantry;
pub use crate::routes::cookie::get_recipe_from_header;

verus! {

/// How many cookies the bakery allows and what the pantry keeps after them.
///
/// When the pantry lacks an ingredient that the recipe needs in some amount
/// (see [`blocked`]), no cookie is baked and the pantry is handed back as it
/// is. Otherwise the number of cookies is [`batches`] and the pantry that
/// comes back lists each recipe ingredient with what is left of it.
pub fn calculate_cookies(bakery: Bakery) -> (reply: BakeReply)
    requires
        bakery.wf(),
        blocked(bakery.recipe@, bakery.pantry_table()) || stocked(
            bakery.recipe@,
            bakery.pantry_table(),
        ),
    ensures
        blocked(bakery.recipe@, bakery.pantry_table()) ==> reply.cookies == 0 && reply.pantry
            == bakery.pantry,
        !blocked(bakery.recipe@, bakery.pantry_table()) ==> reply.cookies == batches(
            bakery.recipe@,
            bakery.pantry_table(),
        ) && leftover(reply.pantry@, bakery.recipe@, bakery.pantry_table(), reply.cookies as int),
{
    let ghost recipe = bakery.recipe@;
    let ghost table = bakery.pantry_table();
    let n = bakery.recipe.len();
    let mut best: u64 = 0;
    let mut i: usize = 0;
    while i < n
        invariant
            n == recipe.len(),
            recipe == bakery.recipe@,
            table == amounts(bakery.pantry@),
            bakery.wf(),
            i <= n,
            forall|k: int| 0 <= k < i ==> !#[trigger] short_of(recipe[k], table),
            i > 0 ==> best == batches(recipe.subrange(0, i as int), table),
            i == 0 ==> best == 0,
        decreases n - i,
    {
        let needed = bakery.recipe[i].amount;
        let per: u64 = if needed == 0 {
            0
        } else {
            match amount_in(&bakery.pantry, &bakery.recipe[i].name) {
                None => {
                    assert(short_of(recipe[i as int], table));
                    return BakeReply { cookies: 0, pantry: bakery.pantry };
                },
                Some(held) => {
                    if needed > held {
                        assert(short_of(recipe[i as int], table));
                        return BakeReply { cookies: 0, pantry: bakery.pantry };
                    }
                    held / needed
                },
            }
        };
        proof {
            let prefix = recipe.subrange(0, i + 1);
            assert(prefix.drop_last() =~= recipe.subrange(0, i as int));
            assert(prefix.last() == recipe[i as int]);
            if needed != 0 {
                assert(table.dom().contains(recipe[i as int].name@));
            }
            assert(per == per_ingredient(needed, table[recipe[i as int].name@]));
        }
        best = if i == 0 {
            per
        } else if per < best {
            per
        } else {
            best
        };
        i = i + 1;
    }
    assert(recipe.subrange(0, n as int) =~= recipe);
    assert(!blocked(recipe, table));
    proof {
        lemma_batches_least(recipe, table);
    }
    let left = leftover_pantry(&bakery, best);
    BakeReply { cookies: best, pantry: left }
}

/// Whether [`calculate_cookies`] can take the bakery: the pantry lacks some
/// ingredient of the recipe, or it names every ingredient of the recipe.
/// Otherwise the leftover of an ingredient that the recipe needs in amount 0
/// and the pantry does not name cannot be computed.
pub fn can_bake(bakery: &Bakery) -> (b: bool)
    requires
        bakery.wf(),
    ensures
        b == (blocked(bakery.recipe@, bakery.pantry_table()) || stocked(
            bakery.recipe@,
            bakery.pantry_table(),
        )),
{
    let ghost recipe = bakery.recipe@;
    let ghost table = bakery.pantry_table();
    let mut all_named = true;
    let mut i: usize = 0;
    while i < bakery.recipe.len()
        invariant
            recipe == bakery.recipe@,
            table == amounts(bakery.pantry@),
            bakery.wf(),
            i <= recipe.len(),
            forall|k: int| 0 <= k < i ==> !#[trigger] short_of(recipe[k], table),
            all_named == (forall|k: int| 0 <= k < i ==> #[trigger] table.dom().contains(
                recipe[k].name@,
            )),
        decreases recipe.len() - i,
    {
        let held = amount_in(&bakery.pantry, &bakery.recipe[i].name);
        let needed = bakery.recipe[i].amount;
        match held {
            None => {
                if needed != 0 {
                    assert(short_of(recipe[i as int], table));
                    return true;
                }
                all_named = false;
            },
            Some(h) => {
                if needed > h {
                    assert(short_of(recipe[i as int], table));
                    return true;
                }
            },
        }
        i = i + 1;
    }
    all_named
}

/// [`calculate_cookies`] where it can take the bakery, `None` where it cannot
/// (see [`can_bake`]).
pub fn checked_calculate_cookies(bakery: Bakery) -> (r: Option<BakeReply>)
    requires
        bakery.wf(),
    ensures
        !(blocked(bakery.recipe@, bakery.pantry_table()) || stocked(
            bakery.recipe@,
            bakery.pantry_table(),
        )) ==> r is None,
        blocked(bakery.recipe@, bakery.pantry_table()) ==> (r matches Some(reply) && reply.cookies
            == 0 && reply.pantry == bakery.pantry),
        !blocked(bakery.recipe@, bakery.pantry_table()) && stocked(
            bakery.recipe@,
            bakery.pantry_table(),
        ) ==> (r matches Some(reply) && reply.cookies == batches(
            bakery.recipe@,
            bakery.pantry_table(),
        ) && leftover(reply.pantry@, bakery.recipe@, bakery.pantry_table(), reply.cookies as int)),
{
    if can_bake(&bakery) {
        Some(calculate_cookies(bakery))
    } else {
        None
    }
}

} // verus!
