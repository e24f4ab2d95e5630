//! The bakery of `/7/bake`: a recipe and a pantry, each a table from ingredient
//! name to amount, and how many cookies they give.
use vstd::prelude::*;
use vstd::string::StringExecFns;

use crate::json::{json_as_u64, json_get, Json};

verus! {

/// An amount of a named ingredient.
#[derive(Debug, PartialEq, Eq)]
pub struct Ingredient {
    pub name: String,
    pub amount: u64,
}

/// What the recipe asks for and what the pantry holds. Each list names an
/// ingredient at most once (see [`Bakery::wf`]).
#[derive(Debug)]
pub struct Bakery {
    pub recipe: Vec<Ingredient>,
    pub pantry: Vec<Ingredient>,
}

/// How many cookies can be baked and what is left in the pantry.
#[derive(Debug)]
pub struct BakeReply {
    pub cookies: u64,
    pub pantry: Vec<Ingredient>,
}

/// Why a recipe cookie gives no bakery.
#[derive(Debug, Clone, Copy, PartialEq, Eq, Structural)]
pub enum RecipeParseError {
    /// The cookie has no `=` between its name and its value.
    BadlyFormedCookie,
    /// The cookie's value is not standard base64.
    Base64Decode,
    /// The decoded cookie is not UTF-8 text.
    NotUtf8,
    /// The JSON has no member `recipe`.
    MissingRecipe,
    /// The member `recipe` is not an object.
    RecipeNotObject,
    /// The JSON has no member `pantry`.
    MissingPantry,
    /// The member `pantry` is not an object.
    PantryNotObject,
}

/// The table that `list` describes: each entry inserted in order, so that a
/// later entry for a name replaces an earlier one.
pub open spec fn amounts(list: Seq<Ingredient>) -> Map<Seq<char>, u64>
    decreases list.len(),
{
    if list.len() == 0 {
        Map::empty()
    } else {
        amounts(list.drop_last()).insert(list.last().name@, list.last().amount)
    }
}

/// No name occurs twice in `list`.
pub open spec fn unique_names(list: Seq<Ingredient>) -> bool {
    forall|i: int, j: int| 0 <= i < j < list.len() ==> list[i].name@ != list[j].name@
}

/// The amount that `table` holds of `name`, if it holds any.
pub open spec fn lookup(table: Map<Seq<char>, u64>, name: Seq<char>) -> Option<u64> {
    if table.dom().contains(name) {
        Some(table[name])
    } else {
        None
    }
}

impl Bakery {
    /// Neither list names an ingredient twice, as a map's keys are distinct.
    pub open spec fn wf(&self) -> bool {
        unique_names(self.recipe@) && unique_names(self.pantry@)
    }

    /// The pantry as a table.
    pub open spec fn pantry_table(&self) -> Map<Seq<char>, u64> {
        amounts(self.pantry@)
    }
}

impl Default for Bakery {
    /// A bakery whose recipe and pantry are empty.
    fn default() -> (b: Self)
        ensures
            b.recipe@.len() == 0,
            b.pantry@.len() == 0,
    {
        Bakery { recipe: Vec::new(), pantry: Vec::new() }
    }
}

/// The amount that the JSON value `v` stands for: its value when it is a
/// non-negative integer that fits in a `u64`, and 0 otherwise.
pub open spec fn amount_of(v: Json) -> u64 {
    match json_as_u64(v) {
        Some(n) => n,
        None => 0,
    }
}

/// The table of an object's members, each read with [`amount_of`] and inserted
/// in order.
pub open spec fn member_amounts(members: Seq<(String, Json)>) -> Map<Seq<char>, u64>
    decreases members.len(),
{
    if members.len() == 0 {
        Map::empty()
    } else {
        member_amounts(members.drop_last()).insert(
            members.last().0@,
            amount_of(members.last().1),
        )
    }
}

/// The recipe and pantry tables that the JSON `input` describes, or why it
/// describes none.
pub open spec fn split_spec(input: Json) -> Result<
    (Map<Seq<char>, u64>, Map<Seq<char>, u64>),
    RecipeParseError,
> {
    match json_get(input, "recipe"@) {
        None => Err(RecipeParseError::MissingRecipe),
        Some(Json::Object(recipe)) => match json_get(input, "pantry"@) {
            None => Err(RecipeParseError::MissingPantry),
            Some(Json::Object(pantry)) => Ok((member_amounts(recipe@), member_amounts(pantry@))),
            Some(_) => Err(RecipeParseError::PantryNotObject),
        },
        Some(_) => Err(RecipeParseError::RecipeNotObject),
    }
}

/// How many cookies one ingredient allows: the held amount divided by the
/// needed amount, rounded down, and 0 for an ingredient the recipe needs none of.
pub open spec fn per_ingredient(needed: u64, held: u64) -> int {
    if needed == 0 {
        0
    } else {
        held as int / needed as int
    }
}

/// How many cookies the pantry allows: the least of [`per_ingredient`] over the
/// recipe, and 0 for an empty recipe.
pub open spec fn batches(recipe: Seq<Ingredient>, pantry: Map<Seq<char>, u64>) -> int
    decreases recipe.len(),
{
    if recipe.len() == 0 {
        0
    } else {
        let last = per_ingredient(recipe.last().amount, pantry[recipe.last().name@]);
        if recipe.len() == 1 {
            last
        } else {
            let rest = batches(recipe.drop_last(), pantry);
            if last < rest {
                last
            } else {
                rest
            }
        }
    }
}

/// The pantry lacks `item`: the recipe needs some of it and the pantry holds
/// none of it or less than that.
pub open spec fn short_of(item: Ingredient, pantry: Map<Seq<char>, u64>) -> bool {
    item.amount != 0 && (!pantry.dom().contains(item.name@) || item.amount > pantry[item.name@])
}

/// The pantry lacks some ingredient of the recipe.
pub open spec fn blocked(recipe: Seq<Ingredient>, pantry: Map<Seq<char>, u64>) -> bool {
    exists|i: int| 0 <= i < recipe.len() && #[trigger] short_of(recipe[i], pantry)
}

/// The pantry names every ingredient of the recipe.
pub open spec fn stocked(recipe: Seq<Ingredient>, pantry: Map<Seq<char>, u64>) -> bool {
    forall|i: int| 0 <= i < recipe.len() ==> #[trigger] pantry.dom().contains(recipe[i].name@)
}

/// `left` is what remains of the pantry after `cookies` cookies: for each
/// recipe ingredient, in recipe order, the held amount less `cookies` times the
/// needed amount.
pub open spec fn leftover(
    left: Seq<Ingredient>,
    recipe: Seq<Ingredient>,
    pantry: Map<Seq<char>, u64>,
    cookies: int,
) -> bool {
    &&& left.len() == recipe.len()
    &&& forall|i: int|
        0 <= i < recipe.len() ==> {
            &&& (#[trigger] left[i]).name@ == recipe[i].name@
            &&& left[i].amount == pantry[recipe[i].name@] - recipe[i].amount * cookies
        }
}

/// [`batches`] is at most each ingredient's [`per_ingredient`], is reached by
/// one of them, and is never negative.
pub proof fn lemma_batches_least(recipe: Seq<Ingredient>, pantry: Map<Seq<char>, u64>)
    ensures
        0 <= batches(recipe, pantry),
        forall|i: int|
            0 <= i < recipe.len() ==> batches(recipe, pantry) <= #[trigger] per_ingredient(
                recipe[i].amount,
                pantry[recipe[i].name@],
            ),
        recipe.len() > 0 ==> exists|j: int|
            0 <= j < recipe.len() && batches(recipe, pantry) == #[trigger] per_ingredient(
                recipe[j].amount,
                pantry[recipe[j].name@],
            ),
    decreases recipe.len(),
{
    if recipe.len() > 0 {
        let init = recipe.drop_last();
        let n = recipe.len() - 1;
        assert(0 <= per_ingredient(recipe[n].amount, pantry[recipe[n].name@]));
        if recipe.len() > 1 {
            lemma_batches_least(init, pantry);
            assert forall|i: int| 0 <= i < recipe.len() implies batches(recipe, pantry)
                <= #[trigger] per_ingredient(recipe[i].amount, pantry[recipe[i].name@]) by {
                if i < n {
                    assert(init[i] == recipe[i]);
                }
            }
            let j0 = choose|j: int|
                0 <= j < init.len() && batches(init, pantry) == #[trigger] per_ingredient(
                    init[j].amount,
                    pantry[init[j].name@],
                );
            assert(init[j0] == recipe[j0]);
            if batches(recipe, pantry) == per_ingredient(recipe[n].amount, pantry[recipe[n].name@]) {
                assert(batches(recipe, pantry) == per_ingredient(
                    recipe[n].amount,
                    pantry[recipe[n].name@],
                ));
            } else {
                assert(batches(recipe, pantry) == per_ingredient(
                    recipe[j0].amount,
                    pantry[recipe[j0].name@],
                ));
            }
        } else {
            assert(batches(recipe, pantry) == per_ingredient(
                recipe[0].amount,
                pantry[recipe[0].name@],
            ));
        }
    }
}

/// `needed * c <= held` whenever `c` is at most `held / needed`.
pub proof fn lemma_within(needed: u64, held: u64, c: int)
    requires
        0 <= c <= per_ingredient(needed, held),
    ensures
        needed * c <= held,
{
    if needed > 0 {
        let q = held as int / needed as int;
        assert(needed * q <= held) by (nonlinear_arith)
            requires
                needed > 0,
                q == held as int / needed as int,
        ;
        assert(needed * c <= needed * q) by (nonlinear_arith)
            requires
                needed > 0,
                c <= q,
        ;
    }
}

/// Every ingredient of a recipe that the pantry stocks and does not lack can
/// go into [`batches`] cookies: the pantry holds at least that many times the
/// needed amount.
pub proof fn law_batches_feasible(recipe: Seq<Ingredient>, pantry: Map<Seq<char>, u64>)
    requires
        stocked(recipe, pantry),
    ensures
        forall|i: int|
            0 <= i < recipe.len() ==> #[trigger] recipe[i].amount * batches(recipe, pantry)
                <= pantry[recipe[i].name@],
{
    lemma_batches_least(recipe, pantry);
    assert forall|i: int| 0 <= i < recipe.len() implies #[trigger] recipe[i].amount * batches(
        recipe,
        pantry,
    ) <= pantry[recipe[i].name@] by {
        assert(batches(recipe, pantry) <= per_ingredient(recipe[i].amount, pantry[recipe[i].name@]));
        lemma_within(recipe[i].amount, pantry[recipe[i].name@], batches(recipe, pantry));
    }
}

/// One more cookie is out of reach: when every ingredient of a non-empty
/// recipe is needed in some amount, some ingredient has less left than one
/// cookie needs.
pub proof fn law_batches_maximal(recipe: Seq<Ingredient>, pantry: Map<Seq<char>, u64>)
    requires
        recipe.len() > 0,
        forall|i: int| 0 <= i < recipe.len() ==> #[trigger] recipe[i].amount > 0,
    ensures
        exists|i: int|
            0 <= i < recipe.len() && pantry[recipe[i].name@] - #[trigger] recipe[i].amount * batches(
                recipe,
                pantry,
            ) < recipe[i].amount,
{
    lemma_batches_least(recipe, pantry);
    let j = choose|j: int|
        0 <= j < recipe.len() && batches(recipe, pantry) == #[trigger] per_ingredient(
            recipe[j].amount,
            pantry[recipe[j].name@],
        );
    let needed = recipe[j].amount;
    let held = pantry[recipe[j].name@];
    assert(needed > 0);
    assert(held - needed * (held as int / needed as int) < needed) by (nonlinear_arith)
        requires
            needed > 0,
    ;
}

/// A recipe that lists an ingredient in amount 0 allows no cookies.
pub proof fn law_zero_amount_bakes_nothing(
    recipe: Seq<Ingredient>,
    pantry: Map<Seq<char>, u64>,
    i: int,
)
    requires
        0 <= i < recipe.len(),
        recipe[i].amount == 0,
    ensures
        batches(recipe, pantry) == 0,
{
    lemma_batches_least(recipe, pantry);
    assert(per_ingredient(recipe[i].amount, pantry[recipe[i].name@]) == 0);
}

/// A name is in the table of `list` exactly when some entry has it, and in a
/// list without repeated names each entry's amount is the table's.
pub proof fn lemma_amounts(list: Seq<Ingredient>)
    ensures
        forall|k: Seq<char>|
            #[trigger] amounts(list).dom().contains(k) <==> exists|i: int|
                0 <= i < list.len() && #[trigger] list[i].name@ == k,
        unique_names(list) ==> forall|i: int|
            0 <= i < list.len() ==> #[trigger] amounts(list)[list[i].name@] == list[i].amount,
    decreases list.len(),
{
    if list.len() > 0 {
        let init = list.drop_last();
        let last = list.last();
        lemma_amounts(init);
        assert(amounts(list) == amounts(init).insert(last.name@, last.amount));
        assert forall|k: Seq<char>|
            #[trigger] amounts(list).dom().contains(k) <==> exists|i: int|
                0 <= i < list.len() && #[trigger] list[i].name@ == k by {
            if amounts(list).dom().contains(k) {
                if k == last.name@ {
                    assert(list[list.len() - 1].name@ == k);
                } else {
                    assert(amounts(init).dom().contains(k));
                    let i = choose|i: int| 0 <= i < init.len() && #[trigger] init[i].name@ == k;
                    assert(list[i] == init[i]);
                    assert(list[i].name@ == k);
                }
            }
            if exists|i: int| 0 <= i < list.len() && #[trigger] list[i].name@ == k {
                let i = choose|i: int| 0 <= i < list.len() && #[trigger] list[i].name@ == k;
                if i < list.len() - 1 {
                    assert(init[i] == list[i]);
                    assert(init[i].name@ == k);
                    assert(amounts(init).dom().contains(k));
                }
            }
        }
        if unique_names(list) {
            assert forall|a: int, b: int| 0 <= a < b < init.len() implies init[a].name@
                != init[b].name@ by {
                assert(init[a] == list[a]);
                assert(init[b] == list[b]);
            }
            assert forall|i: int| 0 <= i < list.len() implies #[trigger] amounts(list)[list[i].name@]
                == list[i].amount by {
                if i < list.len() - 1 {
                    assert(init[i] == list[i]);
                    assert(list[i].name@ != list[list.len() - 1].name@);
                    assert(amounts(init)[init[i].name@] == init[i].amount);
                }
            }
        }
    }
}

/// The pantry lacks an ingredient only when it does not name it or holds
/// strictly less than the recipe needs, and only when the recipe needs some of
/// it; and it does lack it in each of these cases.
pub proof fn law_short_of_means_too_little(item: Ingredient, pantry: Map<Seq<char>, u64>)
    ensures
        short_of(item, pantry) ==> item.amount > 0 && (!pantry.dom().contains(item.name@)
            || pantry[item.name@] < item.amount),
        item.amount > 0 && !pantry.dom().contains(item.name@) ==> short_of(item, pantry),
        item.amount > 0 && pantry.dom().contains(item.name@) && pantry[item.name@] < item.amount
            ==> short_of(item, pantry),
        pantry.dom().contains(item.name@) && item.amount <= pantry[item.name@] ==> !short_of(
            item,
            pantry,
        ),
{
}

/// A pantry that names every ingredient of the recipe and holds at least the
/// needed amount of each does not block the bake; when the recipe is not
/// empty and needs every ingredient in some amount, it allows at least one
/// cookie.
pub proof fn law_enough_stock_bakes(recipe: Seq<Ingredient>, pantry: Map<Seq<char>, u64>)
    requires
        forall|i: int|
            0 <= i < recipe.len() ==> #[trigger] pantry.dom().contains(recipe[i].name@)
                && recipe[i].amount <= pantry[recipe[i].name@],
    ensures
        !blocked(recipe, pantry),
        stocked(recipe, pantry),
        recipe.len() > 0 && (forall|i: int| 0 <= i < recipe.len() ==> #[trigger] recipe[i].amount
            > 0) ==> batches(recipe, pantry) >= 1,
{
    assert forall|i: int| 0 <= i < recipe.len() implies !#[trigger] short_of(recipe[i], pantry) by {
        assert(pantry.dom().contains(recipe[i].name@));
    }
    assert forall|i: int| 0 <= i < recipe.len() implies #[trigger] pantry.dom().contains(
        recipe[i].name@,
    ) by {
        assert(pantry.dom().contains(recipe[i].name@));
    }
    lemma_batches_least(recipe, pantry);
    if recipe.len() > 0 && (forall|i: int| 0 <= i < recipe.len() ==> #[trigger] recipe[i].amount
        > 0) {
        let j = choose|j: int|
            0 <= j < recipe.len() && batches(recipe, pantry) == #[trigger] per_ingredient(
                recipe[j].amount,
                pantry[recipe[j].name@],
            );
        let needed = recipe[j].amount;
        let held = pantry[recipe[j].name@];
        assert(pantry.dom().contains(recipe[j].name@));
        assert(needed > 0);
        assert(held as int / needed as int >= 1) by (nonlinear_arith)
            requires
                needed > 0,
                needed <= held,
        ;
    }
}

/// The pantry blocks the bake when it lacks one ingredient that the recipe
/// needs some of: it does not name it, or holds less than needed.
pub proof fn law_lacking_blocks(recipe: Seq<Ingredient>, pantry: Map<Seq<char>, u64>, i: int)
    requires
        0 <= i < recipe.len(),
        recipe[i].amount > 0,
        !pantry.dom().contains(recipe[i].name@) || pantry[recipe[i].name@] < recipe[i].amount,
    ensures
        blocked(recipe, pantry),
{
    assert(short_of(recipe[i], pantry));
}

/// What one ingredient allows is the largest number of portions that the
/// pantry holds: `needed * per <= held < needed * (per + 1)`.
pub proof fn law_per_ingredient_is_largest_fit(needed: u64, held: u64)
    requires
        needed > 0,
    ensures
        needed * per_ingredient(needed, held) <= held,
        held < needed * (per_ingredient(needed, held) + 1),
        per_ingredient(needed, held) >= 0,
{
    let q = held as int / needed as int;
    assert(needed * q <= held && held < needed * (q + 1) && q >= 0) by (nonlinear_arith)
        requires
            needed > 0,
            q == held as int / needed as int,
    ;
}

/// What remains of each ingredient after the cookies, plus what they used, is
/// what the pantry held.
pub proof fn law_leftover_adds_up(
    left: Seq<Ingredient>,
    recipe: Seq<Ingredient>,
    pantry: Map<Seq<char>, u64>,
    cookies: int,
)
    requires
        leftover(left, recipe, pantry, cookies),
    ensures
        left.len() == recipe.len(),
        forall|i: int|
            0 <= i < recipe.len() ==> #[trigger] left[i].amount + recipe[i].amount * cookies
                == pantry[recipe[i].name@] && left[i].name@ == recipe[i].name@,
{
    assert forall|i: int| 0 <= i < recipe.len() implies #[trigger] left[i].amount
        + recipe[i].amount * cookies == pantry[recipe[i].name@] && left[i].name@
        == recipe[i].name@ by {
        assert(left[i].name@ == recipe[i].name@);
    }
}

/// The order in which a recipe lists its ingredients does not matter: two
/// recipes that describe the same table, each naming an ingredient once, are
/// lacking in the same pantries and allow the same number of cookies.
pub proof fn law_order_irrelevant(
    first: Seq<Ingredient>,
    second: Seq<Ingredient>,
    pantry: Map<Seq<char>, u64>,
)
    requires
        unique_names(first),
        unique_names(second),
        amounts(first) == amounts(second),
    ensures
        blocked(first, pantry) == blocked(second, pantry),
        batches(first, pantry) == batches(second, pantry),
{
    lemma_amounts(first);
    lemma_amounts(second);
    lemma_batches_least(first, pantry);
    lemma_batches_least(second, pantry);
    if blocked(first, pantry) {
        let i = choose|i: int| 0 <= i < first.len() && #[trigger] short_of(first[i], pantry);
        assert(amounts(first).dom().contains(first[i].name@));
        let j = choose|j: int| 0 <= j < second.len() && #[trigger] second[j].name@ == first[i].name@;
        assert(amounts(second)[second[j].name@] == second[j].amount);
        assert(short_of(second[j], pantry));
    }
    if blocked(second, pantry) {
        let j = choose|j: int| 0 <= j < second.len() && #[trigger] short_of(second[j], pantry);
        assert(amounts(second).dom().contains(second[j].name@));
        let i = choose|i: int| 0 <= i < first.len() && #[trigger] first[i].name@ == second[j].name@;
        assert(amounts(first)[first[i].name@] == first[i].amount);
        assert(short_of(first[i], pantry));
    }
    if first.len() > 0 {
        let a = choose|a: int|
            0 <= a < first.len() && batches(first, pantry) == #[trigger] per_ingredient(
                first[a].amount,
                pantry[first[a].name@],
            );
        assert(amounts(first).dom().contains(first[a].name@));
        let b = choose|b: int| 0 <= b < second.len() && #[trigger] second[b].name@ == first[a].name@;
        assert(amounts(second)[second[b].name@] == second[b].amount);
        assert(batches(second, pantry) <= per_ingredient(second[b].amount, pantry[second[b].name@]));
    }
    if second.len() > 0 {
        let b = choose|b: int|
            0 <= b < second.len() && batches(second, pantry) == #[trigger] per_ingredient(
                second[b].amount,
                pantry[second[b].name@],
            );
        assert(amounts(second).dom().contains(second[b].name@));
        let a = choose|a: int| 0 <= a < first.len() && #[trigger] first[a].name@ == second[b].name@;
        assert(amounts(first)[first[a].name@] == first[a].amount);
        assert(batches(first, pantry) <= per_ingredient(first[a].amount, pantry[first[a].name@]));
    }
    if first.len() == 0 && second.len() > 0 {
        assert(amounts(second).dom().contains(second[0].name@));
        assert(amounts(first) =~= Map::<Seq<char>, u64>::empty());
    }
    if second.len() == 0 && first.len() > 0 {
        assert(amounts(first).dom().contains(first[0].name@));
        assert(amounts(second) =~= Map::<Seq<char>, u64>::empty());
    }
}

/// The amount of `name` in the list's table.
#[verifier::loop_isolation(false)]
pub fn amount_in(list: &Vec<Ingredient>, name: &String) -> (r: Option<u64>)
    requires
        unique_names(list@),
    ensures
        r == lookup(amounts(list@), name@),
{
    proof {
        lemma_amounts(list@);
    }
    let mut i: usize = 0;
    while i < list.len()
        invariant
            i <= list@.len(),
            forall|k: int| 0 <= k < i ==> list@[k].name@ != name@,
        decreases list.len() - i,
    {
        if list[i].name == *name {
            assert(list@[i as int].name@ == name@);
            assert(amounts(list@)[list@[i as int].name@] == list@[i as int].amount);
            assert(amounts(list@).dom().contains(name@));
            return Some(list[i].amount);
        }
        i = i + 1;
    }
    None
}

/// Sets the amount of `name` in `list`, adding the name when it is not there.
#[verifier::loop_isolation(false)]
pub fn insert_amount(list: &mut Vec<Ingredient>, name: String, amount: u64)
    requires
        unique_names(old(list)@),
    ensures
        unique_names(final(list)@),
        amounts(final(list)@) == amounts(old(list)@).insert(name@, amount),
{
    proof {
        lemma_amounts(list@);
    }
    let ghost before = list@;
    let mut i: usize = 0;
    while i < list.len()
        invariant
            i <= list@.len(),
            list@ == before,
            forall|k: int| 0 <= k < i ==> list@[k].name@ != name@,
        decreases list.len() - i,
    {
        if list[i].name == name {
            let ghost name_view = name@;
            assert(before[i as int].name@ == name_view);
            list.set(i, Ingredient { name, amount });
            proof {
                let after = list@;
                assert(after.len() == before.len());
                assert(after[i as int].name@ == name_view);
                assert(after[i as int].amount == amount);
                assert forall|a: int| 0 <= a < after.len() && a != i implies #[trigger] after[a]
                    == before[a] by {}
                assert forall|a: int| 0 <= a < after.len() implies #[trigger] after[a].name@
                    == before[a].name@ by {
                    if a != i {
                        assert(after[a] == before[a]);
                    }
                }
                assert forall|a: int, b: int| 0 <= a < b < after.len() implies after[a].name@
                    != after[b].name@ by {
                    assert(after[a].name@ == before[a].name@);
                    assert(after[b].name@ == before[b].name@);
                }
                lemma_amounts(after);
                assert forall|k: Seq<char>| #[trigger]
                    amounts(after).dom().contains(k) == amounts(before).insert(
                        name_view,
                        amount,
                    ).dom().contains(k) by {
                    if amounts(after).dom().contains(k) {
                        let j = choose|j: int| 0 <= j < after.len() && #[trigger] after[j].name@ == k;
                        assert(after[j].name@ == before[j].name@);
                        assert(before[j].name@ == k);
                    }
                    if amounts(before).dom().contains(k) {
                        let j = choose|j: int| 0 <= j < before.len() && #[trigger] before[j].name@ == k;
                        assert(after[j].name@ == before[j].name@);
                        assert(after[j].name@ == k);
                    }
                    if k == name_view {
                        assert(after[i as int].name@ == k);
                    }
                }
                assert forall|k: Seq<char>| #[trigger]
                    amounts(after).dom().contains(k) implies amounts(after)[k] == amounts(
                    before,
                ).insert(name_view, amount)[k] by {
                    let j = choose|j: int| 0 <= j < after.len() && #[trigger] after[j].name@ == k;
                    if j != i {
                        assert(after[j] == before[j]);
                    }
                }
                assert(amounts(after) =~= amounts(before).insert(name_view, amount));
            }
            return;
        }
        i = i + 1;
    }
    let ghost name_view = name@;
    list.push(Ingredient { name, amount });
    proof {
        let after = list@;
        assert(after.drop_last() =~= before);
        assert forall|a: int, b: int| 0 <= a < b < after.len() implies after[a].name@
            != after[b].name@ by {
            if b < after.len() - 1 {
                assert(after[a] == before[a]);
                assert(after[b] == before[b]);
            } else {
                assert(after[a] == before[a]);
            }
        }
    }
}

/// What the pantry keeps after `cookies` cookies: each recipe ingredient, in
/// recipe order, with the held amount less `cookies` times the needed amount.
pub fn leftover_pantry(bakery: &Bakery, cookies: u64) -> (left: Vec<Ingredient>)
    requires
        bakery.wf(),
        stocked(bakery.recipe@, bakery.pantry_table()),
        forall|j: int|
            0 <= j < bakery.recipe@.len() ==> cookies <= #[trigger] per_ingredient(
                bakery.recipe@[j].amount,
                bakery.pantry_table()[bakery.recipe@[j].name@],
            ),
    ensures
        leftover(left@, bakery.recipe@, bakery.pantry_table(), cookies as int),
{
    let ghost recipe = bakery.recipe@;
    let ghost table = bakery.pantry_table();
    let n = bakery.recipe.len();
    let mut left: Vec<Ingredient> = Vec::new();
    let mut k: usize = 0;
    while k < n
        invariant
            n == recipe.len(),
            recipe == bakery.recipe@,
            table == amounts(bakery.pantry@),
            bakery.wf(),
            stocked(recipe, table),
            forall|j: int|
                0 <= j < recipe.len() ==> cookies <= #[trigger] per_ingredient(
                    recipe[j].amount,
                    table[recipe[j].name@],
                ),
            k <= n,
            left@.len() == k,
            forall|j: int|
                0 <= j < k ==> {
                    &&& (#[trigger] left@[j]).name@ == recipe[j].name@
                    &&& left@[j].amount == table[recipe[j].name@] - recipe[j].amount * cookies
                },
        decreases n - k,
    {
        let needed = bakery.recipe[k].amount;
        let held = match amount_in(&bakery.pantry, &bakery.recipe[k].name) {
            Some(held) => held,
            None => {
                assert(table.dom().contains(recipe[k as int].name@));
                0
            },
        };
        proof {
            assert(per_ingredient(recipe[k as int].amount, table[recipe[k as int].name@]) >= cookies);
            lemma_within(needed, held, cookies as int);
        }
        left.push(Ingredient { name: bakery.recipe[k].name.clone(), amount: held - needed * cookies });
        k = k + 1;
    }
    left
}

/// Reads one member of the JSON `input` as a table of amounts: `missing` when
/// there is no such member, `not_object` when it is not an object.
fn read_table(
    input: &Json,
    key: &String,
    missing: RecipeParseError,
    not_object: RecipeParseError,
) -> (r: Result<Vec<Ingredient>, RecipeParseError>)
    ensures
        match json_get(*input, key@) {
            None => r == Err::<Vec<Ingredient>, RecipeParseError>(missing),
            Some(Json::Object(members)) => r matches Ok(list) && unique_names(list@) && amounts(
                list@,
            ) == member_amounts(members@),
            Some(_) => r == Err::<Vec<Ingredient>, RecipeParseError>(not_object),
        },
{
    let value = match input.get(key) {
        None => {
            return Err(missing);
        },
        Some(v) => v,
    };
    let members = match value {
        Json::Object(members) => members,
        _ => {
            return Err(not_object);
        },
    };
    let mut list: Vec<Ingredient> = Vec::new();
    let mut k: usize = 0;
    while k < members.len()
        invariant
            k <= members@.len(),
            unique_names(list@),
            amounts(list@) == member_amounts(members@.subrange(0, k as int)),
        decreases members.len() - k,
    {
        let amount = match members[k].1.as_u64() {
            Some(n) => n,
            None => 0,
        };
        insert_amount(&mut list, members[k].0.clone(), amount);
        assert(members@.subrange(0, k + 1).drop_last() =~= members@.subrange(0, k as int));
        k = k + 1;
    }
    assert(members@.subrange(0, members@.len() as int) =~= members@);
    Ok(list)
}

/// The bakery that the JSON `input` describes: its member `recipe` and its
/// member `pantry`, each an object from ingredient name to amount (an amount
/// that is not a non-negative integer counts as 0).
pub fn split_recipe_from_pantry(input: &Json) -> (r: Result<Bakery, RecipeParseError>)
    ensures
        match split_spec(*input) {
            Err(e) => r == Err::<Bakery, RecipeParseError>(e),
            Ok((recipe, pantry)) => r matches Ok(b) && b.wf() && amounts(b.recipe@) == recipe
                && amounts(b.pantry@) == pantry,
        },
{
    let recipe_key = String::from_str("recipe");
    let recipe = read_table(
        input,
        &recipe_key,
        RecipeParseError::MissingRecipe,
        RecipeParseError::RecipeNotObject,
    )?;
    let pantry_key = String::from_str("pantry");
    let pantry = read_table(
        input,
        &pantry_key,
        RecipeParseError::MissingPantry,
        RecipeParseError::PantryNotObject,
    )?;
    Ok(Bakery { recipe, pantry })
}

} // verus!
