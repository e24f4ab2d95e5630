//! `POST /6`: counting elves and shelves in a text. Matches are found from left
//! to right and do not overlap: after a match the search goes on behind it.
use vstd::prelude::*;

use crate::text::chars_of;

verus! {

/// The counts of `/6`.
#[derive(Debug, Clone, Copy, PartialEq, Eq, Structural)]
pub struct ElfReply {
    /// Matches of `elf`.
    pub elf: u32,
    /// Matches of `elf on a shelf`.
    pub elf_on_a_shelf: u32,
    /// Matches of `shelf` that do not directly follow `elf on a `.
    pub shelf_with_no_elf_on_it: u32,
}

/// `p` occurs in `s` at index `i`.
pub open spec fn occurs_at(s: Seq<char>, p: Seq<char>, i: int) -> bool {
    0 <= i && i + p.len() <= s.len() && s.subrange(i, i + p.len()) == p
}

/// The matches of `p` in `s` found from index `i` on: the leftmost match is
/// taken and the search goes on behind it.
pub open spec fn count_from(s: Seq<char>, p: Seq<char>, i: int) -> nat
    decreases s.len() - i,
{
    if p.len() == 0 || i < 0 || i + p.len() > s.len() {
        0
    } else if occurs_at(s, p, i) {
        1 + count_from(s, p, i + p.len())
    } else {
        count_from(s, p, i + 1)
    }
}

/// The matches of `p` in `s` from index `i` on that do not directly follow
/// `guard`, found as in [`count_from`].
pub open spec fn count_unguarded_from(s: Seq<char>, p: Seq<char>, guard: Seq<char>, i: int) -> nat
    decreases s.len() - i,
{
    if p.len() == 0 || i < 0 || i + p.len() > s.len() {
        0
    } else if occurs_at(s, p, i) && !occurs_at(s, guard, i - guard.len()) {
        1 + count_unguarded_from(s, p, guard, i + p.len())
    } else {
        count_unguarded_from(s, p, guard, i + 1)
    }
}

/// A count as a `u32`, or 0 when it does not fit.
pub open spec fn count_as_u32(n: nat) -> u32 {
    if n <= u32::MAX {
        n as u32
    } else {
        0
    }
}

/// The reply for the text `s`.
pub open spec fn elf_reply(s: Seq<char>) -> ElfReply {
    ElfReply {
        elf: count_as_u32(count_from(s, "elf"@, 0)),
        elf_on_a_shelf: count_as_u32(count_from(s, "elf on a shelf"@, 0)),
        shelf_with_no_elf_on_it: count_as_u32(
            count_unguarded_from(s, "shelf"@, "elf on a "@, 0),
        ),
    }
}

/// `p` occurs at `i` exactly when the characters of `s` from `i` on are the
/// characters of `p`, one for one and case included.
pub proof fn law_occurs_at_is_exact_text(s: Seq<char>, p: Seq<char>, i: int)
    ensures
        occurs_at(s, p, i) <==> (0 <= i && i + p.len() <= s.len() && forall|k: int|
            0 <= k < p.len() ==> #[trigger] s[i + k] == p[k]),
{
    if 0 <= i && i + p.len() <= s.len() {
        if forall|k: int| 0 <= k < p.len() ==> #[trigger] s[i + k] == p[k] {
            assert forall|k: int| 0 <= k < p.len() implies #[trigger] s.subrange(i, i + p.len())[k]
                == p[k] by {
                assert(s[i + k] == p[k]);
            }
            assert(s.subrange(i, i + p.len()) =~= p);
        }
        if occurs_at(s, p, i) {
            assert forall|k: int| 0 <= k < p.len() implies #[trigger] s[i + k] == p[k] by {
                assert(s.subrange(i, i + p.len())[k] == s[i + k]);
            }
        }
    }
}

/// A text in which `p` occurs at no index from `i` on has no match there,
/// guarded or not.
pub proof fn law_no_occurrence_no_match(s: Seq<char>, p: Seq<char>, guard: Seq<char>, i: int)
    requires
        forall|j: int| j >= i ==> !#[trigger] occurs_at(s, p, j),
    ensures
        count_from(s, p, i) == 0,
        count_unguarded_from(s, p, guard, i) == 0,
    decreases s.len() - i,
{
    if !(p.len() == 0 || i < 0 || i + p.len() > s.len()) {
        assert(!occurs_at(s, p, i));
        law_no_occurrence_no_match(s, p, guard, i + 1);
    }
}

/// An occurrence of a non-empty `p` at or after `i` gives at least one match
/// from `i` on; one that does not directly follow `guard` gives at least one
/// unguarded match.
pub proof fn law_occurrence_is_counted(s: Seq<char>, p: Seq<char>, guard: Seq<char>, i: int, j: int)
    requires
        p.len() > 0,
        0 <= i <= j,
        occurs_at(s, p, j),
    ensures
        count_from(s, p, i) >= 1,
        !occurs_at(s, guard, j - guard.len()) ==> count_unguarded_from(s, p, guard, i) >= 1,
    decreases j - i,
{
    if i < j {
        if !occurs_at(s, p, i) {
            law_occurrence_is_counted(s, p, guard, i + 1, j);
        }
        if !(occurs_at(s, p, i) && !occurs_at(s, guard, i - guard.len())) {
            law_occurrence_is_counted(s, p, guard, i + 1, j);
        }
    }
}

/// Occurrences that directly follow `guard` are not counted: when every
/// occurrence of `p` from `i` on follows `guard`, no unguarded match is found.
pub proof fn law_guarded_occurrences_not_counted(
    s: Seq<char>,
    p: Seq<char>,
    guard: Seq<char>,
    i: int,
)
    requires
        forall|j: int| j >= i && #[trigger] occurs_at(s, p, j) ==> occurs_at(s, guard, j - guard.len()),
    ensures
        count_unguarded_from(s, p, guard, i) == 0,
    decreases s.len() - i,
{
    if !(p.len() == 0 || i < 0 || i + p.len() > s.len()) {
        law_guarded_occurrences_not_counted(s, p, guard, i + 1);
    }
}

/// A count that fits in a `u32` is reported as it is.
pub proof fn law_small_counts_kept(n: nat)
    ensures
        n <= u32::MAX ==> count_as_u32(n) as nat == n,
{
}

/// Whether `p` occurs in `s` at index `i`.
fn occurs_at_exec(s: &Vec<char>, p: &Vec<char>, i: usize) -> (r: bool)
    requires
        i <= s@.len(),
    ensures
        r == occurs_at(s@, p@, i as int),
{
    if p.len() > s.len() - i {
        return false;
    }
    let mut k: usize = 0;
    while k < p.len()
        invariant
            i + p@.len() <= s@.len(),
            s@.len() == s.len(),
            k <= p@.len(),
            forall|m: int| 0 <= m < k ==> s@[i + m] == p@[m],
        decreases p.len() - k,
    {
        if s[i + k] != p[k] {
            assert(s@.subrange(i as int, i + p@.len())[k as int] != p@[k as int]);
            return false;
        }
        k = k + 1;
    }
    assert(s@.subrange(i as int, i + p@.len()) =~= p@);
    true
}

/// The matches of `p` in `s` that do not directly follow `guard`, found from
/// left to right without overlap; with an empty `guard`, all matches of `p`.
fn count_matches(s: &Vec<char>, p: &Vec<char>, guard: &Vec<char>) -> (n: usize)
    requires
        p@.len() > 0,
    ensures
        guard@.len() > 0 ==> n == count_unguarded_from(s@, p@, guard@, 0),
        guard@.len() == 0 ==> n == count_from(s@, p@, 0),
{
    let mut count: usize = 0;
    let mut i: usize = 0;
    while i < s.len() && p.len() <= s.len() - i
        invariant
            p@.len() > 0,
            i <= s@.len(),
            count <= i,
            guard@.len() > 0 ==> count + count_unguarded_from(s@, p@, guard@, i as int)
                == count_unguarded_from(s@, p@, guard@, 0),
            guard@.len() == 0 ==> count + count_from(s@, p@, i as int) == count_from(s@, p@, 0),
        decreases s.len() - i,
    {
        let here = occurs_at_exec(s, p, i);
        let guarded = if guard.len() > 0 && i >= guard.len() {
            occurs_at_exec(s, guard, i - guard.len())
        } else {
            false
        };
        proof {
            if guard@.len() > 0 && i < guard@.len() {
                assert(!occurs_at(s@, guard@, i - guard@.len()));
            }
        }
        if here && !guarded {
            count = count + 1;
            i = i + p.len();
        } else {
            i = i + 1;
        }
    }
    count
}

/// A count as a `u32`, 0 when it does not fit.
fn to_u32_or_zero(n: usize) -> (r: u32)
    ensures
        r == count_as_u32(n as nat),
{
    if n <= 4294967295 {
        n as u32
    } else {
        0
    }
}

/// The elves and shelves of the text: the matches of `elf`, of
/// `elf on a shelf`, and of `shelf` not directly after `elf on a `, each found
/// from left to right without overlap.
pub fn match_elfs(input: &str) -> (r: ElfReply)
    ensures
        r == elf_reply(input@),
{
    let text = chars_of(input);
    let elf = chars_of("elf");
    let elf_on_a_shelf = chars_of("elf on a shelf");
    let shelf = chars_of("shelf");
    let guard = chars_of("elf on a ");
    let none: Vec<char> = Vec::new();
    proof {
        reveal_strlit("elf");
        reveal_strlit("elf on a shelf");
        reveal_strlit("shelf");
        reveal_strlit("elf on a ");
    }
    let elves = count_matches(&text, &elf, &none);
    let on_shelves = count_matches(&text, &elf_on_a_shelf, &none);
    let empty_shelves = count_matches(&text, &shelf, &guard);
    ElfReply {
        elf: to_u32_or_zero(elves),
        elf_on_a_shelf: to_u32_or_zero(on_shelves),
        shelf_with_no_elf_on_it: to_u32_or_zero(empty_shelves),
    }
}

} // verus!
