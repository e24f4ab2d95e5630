//! `POST /4/strength` and `POST /4/contest`: the combined strength of a team
//! of reindeer, and the winners of the reindeer contest.
use vstd::prelude::*;
use vstd::string::StringExecFns;

use crate::text::{decimal, push_decimal};

verus! {

/// A reindeer of `/4/strength`.
#[derive(Debug)]
pub struct Reindeer {
    pub name: String,
    pub strength: u32,
}

/// A contestant of `/4/contest`. Its speed, a 32-bit float, is held by the bits
/// of that float (`f32::to_bits`), by which contestants are ordered (see
/// [`speed_key`]).
#[derive(Debug)]
pub struct ReindeerContestEntry {
    pub name: String,
    pub strength: u32,
    pub speed_bits: u32,
    pub height: u32,
    pub antler_width: u32,
    pub snow_magic_power: u32,
    pub favorite_food: String,
    pub candies_eaten_yesterday: u32,
}

/// The four sentences that announce the winners.
#[derive(Debug, PartialEq, Eq)]
pub struct ContestWinners {
    pub fastest: String,
    pub tallest: String,
    pub magician: String,
    pub consumer: String,
}

/// Why the contest has no winners.
#[derive(Debug, Clone, Copy, PartialEq, Eq, Structural)]
pub enum ContestError {
    /// Nobody took part.
    NoReindeer,
}

/// What a contest winner is chosen by.
#[derive(Debug, Clone, Copy, PartialEq, Eq, Structural)]
pub enum Criterion {
    Speed,
    Height,
    SnowMagicPower,
    CandiesEatenYesterday,
}

/// The sum of the strengths of `team`.
pub open spec fn total_strength_spec(team: Seq<Reindeer>) -> int
    decreases team.len(),
{
    if team.len() == 0 {
        0
    } else {
        total_strength_spec(team.drop_last()) + team.last().strength
    }
}

/// The position of the float with bits `bits` in the total order of `f32`
/// values (`f32::total_cmp`): the bits read as a signed integer, with the
/// magnitude bits of a negative float reversed, so that larger keys are larger
/// floats and `-0.0` comes just before `+0.0`.
pub open spec fn speed_key(bits: u32) -> int {
    if bits < 0x8000_0000 {
        bits as int
    } else {
        0x7fff_ffff - bits as int
    }
}

/// The value of a contestant that a criterion compares.
pub open spec fn criterion_key(d: ReindeerContestEntry, by: Criterion) -> int {
    match by {
        Criterion::Speed => speed_key(d.speed_bits),
        Criterion::Height => d.height as int,
        Criterion::SnowMagicPower => d.snow_magic_power as int,
        Criterion::CandiesEatenYesterday => d.candies_eaten_yesterday as int,
    }
}

/// The keys of all contestants under a criterion.
pub open spec fn keys(field: Seq<ReindeerContestEntry>, by: Criterion) -> Seq<int> {
    field.map_values(|d: ReindeerContestEntry| criterion_key(d, by))
}

/// The index of the largest key, the last one among equals; 0 for an empty
/// sequence.
pub open spec fn last_max_index(keys: Seq<int>) -> int
    decreases keys.len(),
{
    if keys.len() <= 1 {
        0
    } else {
        let i = last_max_index(keys.drop_last());
        if keys.last() >= keys[i] {
            keys.len() - 1
        } else {
            i
        }
    }
}

/// The announcement of the fastest contestant.
pub open spec fn fastest_line(d: ReindeerContestEntry) -> Seq<char> {
    "Speeding past the finish line with a strength of "@ + decimal(d.strength as nat) + " is "@
        + d.name@
}

/// The announcement of the tallest contestant.
pub open spec fn tallest_line(d: ReindeerContestEntry) -> Seq<char> {
    d.name@ + " is standing tall with his "@ + decimal(d.antler_width as nat)
        + " cm wide antlers"@
}

/// The announcement of the best magician.
pub open spec fn magician_line(d: ReindeerContestEntry) -> Seq<char> {
    d.name@ + " could blast you away with a snow magic power of "@ + decimal(
        d.snow_magic_power as nat,
    )
}

/// The announcement of the one who ate most candies.
pub open spec fn consumer_line(d: ReindeerContestEntry) -> Seq<char> {
    d.name@ + " ate lots of candies, but also some grass"@
}

/// The winner under a criterion.
pub open spec fn winner(field: Seq<ReindeerContestEntry>, by: Criterion) -> ReindeerContestEntry {
    field[last_max_index(keys(field, by))]
}

/// The combined strength of the team, or `None` when it does not fit in a
/// `u32` (where adding up in `u32` overflows).
pub fn total_strength(team: &Vec<Reindeer>) -> (r: Option<u32>)
    ensures
        total_strength_spec(team@) <= u32::MAX ==> r == Some(total_strength_spec(team@) as u32),
        total_strength_spec(team@) > u32::MAX ==> r is None,
{
    let mut sum: u32 = 0;
    let mut i: usize = 0;
    while i < team.len()
        invariant
            i <= team@.len(),
            sum == total_strength_spec(team@.subrange(0, i as int)),
        decreases team.len() - i,
    {
        assert(team@.subrange(0, i + 1).drop_last() =~= team@.subrange(0, i as int));
        match sum.checked_add(team[i].strength) {
            Some(s) => {
                sum = s;
            },
            None => {
                proof {
                    lemma_total_grows(team@, i + 1);
                }
                return None;
            },
        }
        i = i + 1;
    }
    assert(team@.subrange(0, team@.len() as int) =~= team@);
    Some(sum)
}

/// The strength of the whole team is at least that of any first part of it.
proof fn lemma_total_grows(team: Seq<Reindeer>, k: int)
    requires
        0 <= k <= team.len(),
    ensures
        total_strength_spec(team.subrange(0, k)) <= total_strength_spec(team),
    decreases team.len() - k,
{
    if k < team.len() {
        lemma_total_grows(team, k + 1);
        assert(team.subrange(0, k + 1).drop_last() =~= team.subrange(0, k));
    } else {
        assert(team.subrange(0, k) =~= team);
    }
}

/// The largest key lies at [`last_max_index`], and every key after it is
/// smaller: the winner is the last of the best.
pub proof fn law_last_max_index(keys: Seq<int>)
    requires
        keys.len() > 0,
    ensures
        0 <= last_max_index(keys) < keys.len(),
        forall|j: int| 0 <= j < keys.len() ==> #[trigger] keys[j] <= keys[last_max_index(keys)],
        forall|j: int|
            last_max_index(keys) < j < keys.len() ==> #[trigger] keys[j] < keys[last_max_index(
                keys,
            )],
    decreases keys.len(),
{
    if keys.len() > 1 {
        let init = keys.drop_last();
        law_last_max_index(init);
        assert forall|j: int| 0 <= j < keys.len() - 1 implies #[trigger] keys[j] == init[j] by {}
    }
}

/// Each reindeer adds its strength to the team's: adding `d` to a team adds
/// `d.strength` to the total, and nobody's total is 0.
pub proof fn law_total_strength_adds(team: Seq<Reindeer>, d: Reindeer)
    ensures
        total_strength_spec(team.push(d)) == total_strength_spec(team) + d.strength,
        total_strength_spec(Seq::<Reindeer>::empty()) == 0,
{
    assert(team.push(d).drop_last() =~= team);
}

/// Each winner is best under its criterion: nobody is taller than the
/// tallest, has more snow magic power than the magician, ate more candies than
/// the consumer, or is faster (in the order of [`speed_key`]) than the fastest.
/// Among those as good, the winner comes last.
pub proof fn law_winners_are_best(field: Seq<ReindeerContestEntry>)
    requires
        field.len() > 0,
    ensures
        forall|j: int|
            0 <= j < field.len() ==> (#[trigger] field[j]).height <= winner(
                field,
                Criterion::Height,
            ).height && field[j].snow_magic_power <= winner(
                field,
                Criterion::SnowMagicPower,
            ).snow_magic_power && field[j].candies_eaten_yesterday <= winner(
                field,
                Criterion::CandiesEatenYesterday,
            ).candies_eaten_yesterday && speed_key(field[j].speed_bits) <= speed_key(
                winner(field, Criterion::Speed).speed_bits,
            ),
        forall|j: int|
            last_max_index(keys(field, Criterion::Height)) < j < field.len() ==> (
            #[trigger] field[j]).height < winner(field, Criterion::Height).height,
        0 <= last_max_index(keys(field, Criterion::Height)) < field.len(),
{
    let kh = keys(field, Criterion::Height);
    let km = keys(field, Criterion::SnowMagicPower);
    let kc = keys(field, Criterion::CandiesEatenYesterday);
    let ks = keys(field, Criterion::Speed);
    law_last_max_index(kh);
    law_last_max_index(km);
    law_last_max_index(kc);
    law_last_max_index(ks);
    assert forall|j: int| 0 <= j < field.len() implies (#[trigger] field[j]).height <= winner(
        field,
        Criterion::Height,
    ).height && field[j].snow_magic_power <= winner(
        field,
        Criterion::SnowMagicPower,
    ).snow_magic_power && field[j].candies_eaten_yesterday <= winner(
        field,
        Criterion::CandiesEatenYesterday,
    ).candies_eaten_yesterday && speed_key(field[j].speed_bits) <= speed_key(
        winner(field, Criterion::Speed).speed_bits,
    ) by {
        assert(kh[j] <= kh[last_max_index(kh)]);
        assert(km[j] <= km[last_max_index(km)]);
        assert(kc[j] <= kc[last_max_index(kc)]);
        assert(ks[j] <= ks[last_max_index(ks)]);
    }
    assert forall|j: int| last_max_index(kh) < j < field.len() implies (
    #[trigger] field[j]).height < winner(field, Criterion::Height).height by {
        assert(kh[j] < kh[last_max_index(kh)]);
    }
}

/// The speed key orders floats by their bits as IEEE 754 does: among
/// non-negative floats (sign bit clear) larger bits are larger, among negative
/// ones (sign bit set) larger bits are smaller, and every negative float comes
/// before every non-negative one.
pub proof fn law_speed_key_order(a: u32, b: u32)
    ensures
        a < 0x8000_0000 && b < 0x8000_0000 ==> (speed_key(a) < speed_key(b) <==> a < b),
        a >= 0x8000_0000 && b >= 0x8000_0000 ==> (speed_key(a) < speed_key(b) <==> a > b),
        a >= 0x8000_0000 && b < 0x8000_0000 ==> speed_key(a) < speed_key(b),
        speed_key(a) == speed_key(b) ==> a == b,
{
}

/// The order key of a float given by its bits (see [`speed_key`]).
pub fn speed_order_key(bits: u32) -> (k: i64)
    ensures
        k == speed_key(bits),
{
    if bits < 0x8000_0000 {
        bits as i64
    } else {
        0x7fff_ffffi64 - bits as i64
    }
}

/// The key of a contestant under a criterion.
fn key_of(d: &ReindeerContestEntry, by: Criterion) -> (k: i64)
    ensures
        k == criterion_key(*d, by),
{
    match by {
        Criterion::Speed => speed_order_key(d.speed_bits),
        Criterion::Height => d.height as i64,
        Criterion::SnowMagicPower => d.snow_magic_power as i64,
        Criterion::CandiesEatenYesterday => d.candies_eaten_yesterday as i64,
    }
}

/// The index of the winner under a criterion: the contestant with the largest
/// key, the last one among equals.
pub fn winner_index(field: &Vec<ReindeerContestEntry>, by: Criterion) -> (i: usize)
    requires
        field@.len() > 0,
    ensures
        i == last_max_index(keys(field@, by)),
        i < field@.len(),
{
    let ghost all = keys(field@, by);
    let mut best: usize = 0;
    let mut best_key = key_of(&field[0], by);
    let mut i: usize = 1;
    assert(all.subrange(0, 1).len() == 1);
    while i < field.len()
        invariant
            all == keys(field@, by),
            all.len() == field@.len(),
            1 <= i <= field@.len(),
            best < i,
            best == last_max_index(all.subrange(0, i as int)),
            best_key == all[best as int],
        decreases field.len() - i,
    {
        let k = key_of(&field[i], by);
        let ghost prefix = all.subrange(0, i + 1);
        assert(prefix.drop_last() =~= all.subrange(0, i as int));
        assert(prefix.last() == all[i as int]);
        assert(prefix[best as int] == all[best as int]);
        if k >= best_key {
            best = i;
            best_key = k;
        }
        i = i + 1;
    }
    assert(all.subrange(0, field@.len() as int) =~= all);
    best
}

/// The winners of the contest: the fastest (by speed, in the total order of
/// floats), the tallest (by height), the best magician (by snow magic power)
/// and the one who ate most candies yesterday; under each criterion the last
/// of the contestants with the largest value wins. `NoReindeer` when nobody
/// took part.
pub fn determine_winners(field: &Vec<ReindeerContestEntry>) -> (r: Result<ContestWinners, ContestError>)
    ensures
        field@.len() == 0 ==> r == Err::<ContestWinners, ContestError>(ContestError::NoReindeer),
        field@.len() > 0 ==> (r matches Ok(w) && w.fastest@ == fastest_line(
            winner(field@, Criterion::Speed),
        ) && w.tallest@ == tallest_line(winner(field@, Criterion::Height)) && w.magician@
            == magician_line(winner(field@, Criterion::SnowMagicPower)) && w.consumer@
            == consumer_line(winner(field@, Criterion::CandiesEatenYesterday))),
{
    if field.len() == 0 {
        return Err(ContestError::NoReindeer);
    }
    let f = &field[winner_index(field, Criterion::Speed)];
    let mut fastest = String::new();
    fastest.append("Speeding past the finish line with a strength of ");
    push_decimal(&mut fastest, f.strength as u64);
    fastest.append(" is ");
    fastest.append(f.name.as_str());

    let t = &field[winner_index(field, Criterion::Height)];
    let mut tallest = String::new();
    tallest.append(t.name.as_str());
    tallest.append(" is standing tall with his ");
    push_decimal(&mut tallest, t.antler_width as u64);
    tallest.append(" cm wide antlers");

    let m = &field[winner_index(field, Criterion::SnowMagicPower)];
    let mut magician = String::new();
    magician.append(m.name.as_str());
    magician.append(" could blast you away with a snow magic power of ");
    push_decimal(&mut magician, m.snow_magic_power as u64);

    let c = &field[winner_index(field, Criterion::CandiesEatenYesterday)];
    let mut consumer = String::new();
    consumer.append(c.name.as_str());
    consumer.append(" ate lots of candies, but also some grass");

    assert(fastest@ =~= fastest_line(*f));
    assert(tallest@ =~= tallest_line(*t));
    assert(magician@ =~= magician_line(*m));
    assert(consumer@ =~= consumer_line(*c));
    Ok(ContestWinners { fastest, tallest, magician, consumer })
}

} // verus!
