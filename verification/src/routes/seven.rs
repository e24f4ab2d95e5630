//! `GET /7/decode` and `GET /7/bake`, in the variant that checks the decoded
//! cookie for UTF-8 and goes through the recipe in order, stopping at the first
//! ingredient that the pantry lacks.
use vstd::prelude::*;
use vstd::utf8::valid_utf8;

use crate::bakery::{
    amount_in, amounts, batches, blocked, lemma_batches_least, leftover, leftover_pantry,
    per_ingredient, short_of, stocked, BakeReply, Bakery, Ingredient, RecipeParseError,
};
use crate::routes::cookie::decoded_recipe;
use vstd::string::StringSliceAdditionalSpecFns;

pub use crate::bakery::split_recipe_from_pantry;

verus! {

/// Calls `std::str::from_utf8` and reports whether it accepted `bytes`.
/// Claimed: it accepts exactly the byte strings that are well-formed UTF-8, as
/// `vstd::utf8::valid_utf8` describes them.
#[verifier::external_body]
fn is_utf8(bytes: &[u8]) -> (r: bool)
    ensures
        r == valid_utf8(bytes@),
{
    std::str::from_utf8(bytes).is_ok()
}

/// What the recipe cookie gives in this variant: the decoded bytes when they
/// are UTF-8 text.
pub open spec fn recipe_text(cookie: Seq<u8>) -> Result<Seq<u8>, RecipeParseError> {
    match decoded_recipe(cookie) {
        Err(e) => Err(e),
        Ok(bytes) => if valid_utf8(bytes) {
            Ok(bytes)
        } else {
            Err(RecipeParseError::NotUtf8)
        },
    }
}

/// The decoded recipe when it is UTF-8 text, `NotUtf8` otherwise.
pub fn check_recipe_text(decoded: Vec<u8>) -> (r: Result<Vec<u8>, RecipeParseError>)
    ensures
        valid_utf8(decoded@) ==> r == Ok::<Vec<u8>, RecipeParseError>(decoded),
        !valid_utf8(decoded@) ==> r == Err::<Vec<u8>, RecipeParseError>(
            RecipeParseError::NotUtf8,
        ),
{
    if is_utf8(decoded.as_slice()) {
        Ok(decoded)
    } else {
        Err(RecipeParseError::NotUtf8)
    }
}

/// The recipe carried by a cookie written `recipe=<base64>`: its value decoded
/// from standard base64, when that is UTF-8 text.
pub fn get_recipe_from_header(cookie: &str) -> (r: Result<Vec<u8>, RecipeParseError>)
    ensures
        match recipe_text(cookie.spec_bytes()) {
            Err(e) => r == Err::<Vec<u8>, RecipeParseError>(e),
            Ok(bytes) => r matches Ok(v) && v@ == bytes,
        },
{
    let decoded = crate::routes::cookie::get_recipe_from_header(cookie)?;
    check_recipe_text(decoded)
}

/// The pantry stops the bake at `item`: it does not name the ingredient, or
/// holds less of it than the recipe needs.
pub open spec fn stops_at(item: Ingredient, pantry: Map<Seq<char>, u64>) -> bool {
    !pantry.dom().contains(item.name@) || item.amount > pantry[item.name@]
}

/// The index of the first recipe ingredient that stops the bake, or the
/// length of the recipe when none does.
pub open spec fn first_stop(recipe: Seq<Ingredient>, pantry: Map<Seq<char>, u64>) -> int
    decreases recipe.len(),
{
    if recipe.len() == 0 {
        0
    } else if stops_at(recipe[0], pantry) {
        0
    } else {
        1 + first_stop(recipe.drop_first(), pantry)
    }
}

proof fn lemma_first_stop_at(recipe: Seq<Ingredient>, pantry: Map<Seq<char>, u64>, k: int)
    requires
        0 <= k <= recipe.len(),
        forall|m: int| 0 <= m < k ==> !#[trigger] stops_at(recipe[m], pantry),
        k < recipe.len() ==> stops_at(recipe[k], pantry),
    ensures
        first_stop(recipe, pantry) == k,
    decreases recipe.len(),
{
    if recipe.len() > 0 && k > 0 {
        assert forall|m: int| 0 <= m < k - 1 implies !#[trigger] stops_at(
            recipe.drop_first()[m],
            pantry,
        ) by {
            assert(recipe.drop_first()[m] == recipe[m + 1]);
        }
        assert(!stops_at(recipe[0], pantry));
        if k < recipe.len() {
            assert(recipe.drop_first()[k - 1] == recipe[k]);
        }
        lemma_first_stop_at(recipe.drop_first(), pantry, k - 1);
    }
}

/// How many cookies the bakery allows and what the pantry keeps after them,
/// going through the recipe in order.
///
/// At the first ingredient that the pantry does not name or holds too little
/// of (see [`first_stop`]), no cookie is baked and the pantry is handed back as
/// it is. Every ingredient before that point must be needed in some amount:
/// the amount divides what the pantry holds.
pub fn calculate_cookies(bakery: Bakery) -> (reply: BakeReply)
    requires
        bakery.wf(),
        forall|i: int|
            0 <= i < first_stop(bakery.recipe@, bakery.pantry_table()) ==> (
            #[trigger] bakery.recipe@[i]).amount != 0,
    ensures
        first_stop(bakery.recipe@, bakery.pantry_table()) < bakery.recipe@.len() ==> reply.cookies
            == 0 && reply.pantry == bakery.pantry,
        first_stop(bakery.recipe@, bakery.pantry_table()) >= bakery.recipe@.len()
            ==> reply.cookies == batches(bakery.recipe@, bakery.pantry_table()) && leftover(
            reply.pantry@,
            bakery.recipe@,
            bakery.pantry_table(),
            reply.cookies as int,
        ),
{
    let ghost recipe = bakery.recipe@;
    let ghost table = bakery.pantry_table();
    let n = bakery.recipe.len();
    let mut best: u64 = 0;
    let mut i: usize = 0;
    while i < n
        invariant
            n == recipe.len(),
            recipe == bakery.recipe@,
            table == amounts(bakery.pantry@),
            bakery.wf(),
            forall|i: int| 0 <= i < first_stop(recipe, table) ==> (#[trigger] recipe[i]).amount != 0,
            i <= n,
            forall|k: int| 0 <= k < i ==> !#[trigger] stops_at(recipe[k], table),
            i > 0 ==> best == batches(recipe.subrange(0, i as int), table),
            i == 0 ==> best == 0,
        decreases n - i,
    {
        let needed = bakery.recipe[i].amount;
        let held = match amount_in(&bakery.pantry, &bakery.recipe[i].name) {
            None => {
                proof {
                    lemma_first_stop_at(recipe, table, i as int);
                }
                return BakeReply { cookies: 0, pantry: bakery.pantry };
            },
            Some(held) => held,
        };
        if needed > held {
            proof {
                lemma_first_stop_at(recipe, table, i as int);
            }
            return BakeReply { cookies: 0, pantry: bakery.pantry };
        }
        proof {
            lemma_first_stop_facts(recipe, table);
            assert(table.dom().contains(recipe[i as int].name@));
            assert(!stops_at(recipe[i as int], table));
            let f = first_stop(recipe, table);
            if f <= i {
                assert(stops_at(recipe[f], table));
                if f < i {
                    assert(!stops_at(recipe[f], table));
                }
            }
            assert(i < first_stop(recipe, table));
            assert(recipe[i as int].amount != 0);
        }
        let per = held / needed;
        proof {
            let prefix = recipe.subrange(0, i + 1);
            assert(prefix.drop_last() =~= recipe.subrange(0, i as int));
            assert(prefix.last() == recipe[i as int]);
            assert(per == per_ingredient(needed, table[recipe[i as int].name@]));
        }
        best = if i == 0 {
            per
        } else if per < best {
            per
        } else {
            best
        };
        i = i + 1;
    }
    assert(recipe.subrange(0, n as int) =~= recipe);
    proof {
        lemma_first_stop_at(recipe, table, n as int);
        lemma_batches_least(recipe, table);
        assert forall|j: int| 0 <= j < recipe.len() implies #[trigger] table.dom().contains(
            recipe[j].name@,
        ) by {
            assert(!stops_at(recipe[j], table));
        }
    }
    let left = leftover_pantry(&bakery, best);
    BakeReply { cookies: best, pantry: left }
}

/// The first stop lies within the recipe exactly when some ingredient stops
/// the bake, and then that ingredient does while none before it does.
pub proof fn lemma_first_stop_facts(recipe: Seq<Ingredient>, pantry: Map<Seq<char>, u64>)
    ensures
        0 <= first_stop(recipe, pantry) <= recipe.len(),
        forall|m: int| 0 <= m < first_stop(recipe, pantry) ==> !#[trigger] stops_at(recipe[m], pantry),
        first_stop(recipe, pantry) < recipe.len() ==> stops_at(
            recipe[first_stop(recipe, pantry)],
            pantry,
        ),
    decreases recipe.len(),
{
    if recipe.len() > 0 && !stops_at(recipe[0], pantry) {
        lemma_first_stop_facts(recipe.drop_first(), pantry);
        assert forall|m: int| 0 <= m < first_stop(recipe, pantry) implies !#[trigger] stops_at(
            recipe[m],
            pantry,
        ) by {
            if m > 0 {
                assert(recipe[m] == recipe.drop_first()[m - 1]);
            }
        }
        if first_stop(recipe, pantry) < recipe.len() {
            assert(recipe[first_stop(recipe, pantry)] == recipe.drop_first()[first_stop(
                recipe,
                pantry,
            ) - 1]);
        }
    }
}

/// The bake stops at an ingredient exactly when the pantry does not name it
/// or holds strictly less than the recipe needs.
pub proof fn law_stops_when_too_little(item: Ingredient, pantry: Map<Seq<char>, u64>)
    ensures
        stops_at(item, pantry) ==> !pantry.dom().contains(item.name@) || pantry[item.name@]
            < item.amount,
        !pantry.dom().contains(item.name@) ==> stops_at(item, pantry),
        pantry.dom().contains(item.name@) && pantry[item.name@] < item.amount ==> stops_at(
            item,
            pantry,
        ),
        pantry.dom().contains(item.name@) && item.amount <= pantry[item.name@] ==> !stops_at(
            item,
            pantry,
        ),
{
}

/// A pantry that names every ingredient and holds at least the needed amount
/// of each lets the bake go through the whole recipe; when the recipe is not
/// empty and needs every ingredient in some amount, it allows at least one
/// cookie.
pub proof fn law_enough_stock_goes_through(recipe: Seq<Ingredient>, pantry: Map<Seq<char>, u64>)
    requires
        forall|i: int|
            0 <= i < recipe.len() ==> #[trigger] pantry.dom().contains(recipe[i].name@)
                && recipe[i].amount <= pantry[recipe[i].name@],
    ensures
        first_stop(recipe, pantry) == recipe.len(),
        recipe.len() > 0 && (forall|i: int| 0 <= i < recipe.len() ==> #[trigger] recipe[i].amount
            > 0) ==> batches(recipe, pantry) >= 1,
{
    assert forall|m: int| 0 <= m < recipe.len() implies !#[trigger] stops_at(recipe[m], pantry) by {
        assert(pantry.dom().contains(recipe[m].name@));
    }
    lemma_first_stop_at(recipe, pantry, recipe.len() as int);
    crate::bakery::law_enough_stock_bakes(recipe, pantry);
}

/// An ingredient that the pantry does not name, or holds less of than needed,
/// stops the bake there or earlier.
pub proof fn law_lacking_stops(recipe: Seq<Ingredient>, pantry: Map<Seq<char>, u64>, i: int)
    requires
        0 <= i < recipe.len(),
        !pantry.dom().contains(recipe[i].name@) || pantry[recipe[i].name@] < recipe[i].amount,
    ensures
        first_stop(recipe, pantry) <= i,
{
    lemma_first_stop_facts(recipe, pantry);
    assert(stops_at(recipe[i], pantry));
}

/// When the recipe needs every ingredient in some amount, going through it in
/// order stops early exactly when the pantry lacks an ingredient: both
/// variants of the bake then agree.
pub proof fn law_agrees_without_zero_amounts(
    recipe: Seq<Ingredient>,
    pantry: Map<Seq<char>, u64>,
)
    requires
        forall|i: int| 0 <= i < recipe.len() ==> #[trigger] recipe[i].amount != 0,
    ensures
        (first_stop(recipe, pantry) < recipe.len()) == blocked(recipe, pantry),
        first_stop(recipe, pantry) >= recipe.len() ==> stocked(recipe, pantry),
{
    lemma_first_stop_facts(recipe, pantry);
    let f = first_stop(recipe, pantry);
    if f < recipe.len() {
        assert(short_of(recipe[f], pantry));
    }
    if blocked(recipe, pantry) {
        let i = choose|i: int| 0 <= i < recipe.len() && #[trigger] short_of(recipe[i], pantry);
        assert(stops_at(recipe[i], pantry));
    }
    if f >= recipe.len() {
        assert forall|j: int| 0 <= j < recipe.len() implies #[trigger] pantry.dom().contains(
            recipe[j].name@,
        ) by {
            assert(!stops_at(recipe[j], pantry));
        }
    }
}

/// Whether [`calculate_cookies`] can take the bakery: every ingredient before
/// the first one that stops the bake is needed in some amount. Otherwise the
/// amount 0 would divide what the pantry holds.
pub fn can_bake(bakery: &Bakery) -> (b: bool)
    requires
        bakery.wf(),
    ensures
        b == (forall|i: int|
            0 <= i < first_stop(bakery.recipe@, bakery.pantry_table()) ==> (
            #[trigger] bakery.recipe@[i]).amount != 0),
{
    let ghost recipe = bakery.recipe@;
    let ghost table = bakery.pantry_table();
    proof {
        lemma_first_stop_facts(recipe, table);
    }
    let mut i: usize = 0;
    while i < bakery.recipe.len()
        invariant
            recipe == bakery.recipe@,
            table == amounts(bakery.pantry@),
            bakery.wf(),
            i <= recipe.len(),
            i <= first_stop(recipe, table),
            0 <= first_stop(recipe, table) <= recipe.len(),
            forall|m: int| 0 <= m < first_stop(recipe, table) ==> !#[trigger] stops_at(recipe[m], table),
            first_stop(recipe, table) < recipe.len() ==> stops_at(
                recipe[first_stop(recipe, table)],
                table,
            ),
            forall|k: int| 0 <= k < i ==> (#[trigger] recipe[k]).amount != 0,
        decreases recipe.len() - i,
    {
        let needed = bakery.recipe[i].amount;
        let stop = match amount_in(&bakery.pantry, &bakery.recipe[i].name) {
            None => true,
            Some(h) => needed > h,
        };
        if stop {
            assert(stops_at(recipe[i as int], table));
            assert(first_stop(recipe, table) == i);
            return true;
        }
        assert(!stops_at(recipe[i as int], table));
        proof {
            if i as int == first_stop(recipe, table) {
                assert(false);
            }
        }
        if needed == 0 {
            return false;
        }
        i = i + 1;
    }
    true
}

/// [`calculate_cookies`] where it can take the bakery, `None` where it cannot
/// (see [`can_bake`]).
pub fn checked_calculate_cookies(bakery: Bakery) -> (r: Option<BakeReply>)
    requires
        bakery.wf(),
    ensures
        !(forall|i: int|
            0 <= i < first_stop(bakery.recipe@, bakery.pantry_table()) ==> (
            #[trigger] bakery.recipe@[i]).amount != 0) ==> r is None,
        (forall|i: int|
            0 <= i < first_stop(bakery.recipe@, bakery.pantry_table()) ==> (
            #[trigger] bakery.recipe@[i]).amount != 0) ==> (r matches Some(reply) && (first_stop(
            bakery.recipe@,
            bakery.pantry_table(),
        ) < bakery.recipe@.len() ==> reply.cookies == 0 && reply.pantry == bakery.pantry) && (
        first_stop(bakery.recipe@, bakery.pantry_table()) >= bakery.recipe@.len()
            ==> reply.cookies == batches(bakery.recipe@, bakery.pantry_table()) && leftover(
            reply.pantry@,
            bakery.recipe@,
            bakery.pantry_table(),
            reply.cookies as int,
        ))),
{
    if can_bake(&bakery) {
        Some(calculate_cookies(bakery))
    } else {
        None
    }
}

} // verus!
