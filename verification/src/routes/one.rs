//! `GET /1/<num1>/<num2>/...`: the packet ids in the path are XOR-ed together
//! and the result is raised to the third power.
use vstd::prelude::*;

use crate::text::{chars_of, parse_i32, parse_i32_chars};

verus! {

/// Why a path gives no answer.
#[derive(Debug, Clone, Copy, PartialEq, Eq, Structural)]
pub enum XorPowerError {
    /// A segment of the path is not an `i32` (answered with `400 Bad Request`).
    InvalidNumber,
    /// The cube of the XOR does not fit in an `i32`: `i32::pow` would overflow.
    Overflow,
}

/// The index of the first `c` in `s`, or `s.len()` when there is none.
pub open spec fn first_index(s: Seq<char>, c: char) -> int
    decreases s.len(),
{
    if s.len() == 0 {
        0
    } else if s[0] == c {
        0
    } else {
        1 + first_index(s.drop_first(), c)
    }
}

/// `s` cut at every `sep`, as `str::split` cuts it: `n` separators give
/// `n + 1` pieces, empty ones included.
pub open spec fn split_on(s: Seq<char>, sep: char) -> Seq<Seq<char>>
    decreases s.len(),
{
    let i = first_index(s, sep);
    if i < 0 || i >= s.len() {
        seq![s]
    } else {
        seq![s.subrange(0, i)] + split_on(s.subrange(i + 1, s.len() as int), sep)
    }
}

/// Every piece read as an `i32`, or `None` when some piece is not one.
pub open spec fn parse_all(pieces: Seq<Seq<char>>) -> Option<Seq<i32>>
    decreases pieces.len(),
{
    if pieces.len() == 0 {
        Some(Seq::empty())
    } else {
        match (parse_i32(pieces[0]), parse_all(pieces.drop_first())) {
            (Some(x), Some(rest)) => Some(seq![x] + rest),
            _ => None,
        }
    }
}

/// The packet ids of a path tail such as `"1/2/3"`.
pub open spec fn packet_ids(tail: Seq<char>) -> Option<Seq<i32>> {
    parse_all(split_on(tail, '/'))
}

/// The XOR of all of `nums`, folded from the left starting with `nums[0]`.
pub open spec fn xor_fold(nums: Seq<i32>) -> i32
    decreases nums.len(),
{
    if nums.len() == 0 {
        0
    } else if nums.len() == 1 {
        nums[0]
    } else {
        xor_fold(nums.drop_last()) ^ nums.last()
    }
}

/// The third power of `x`.
pub open spec fn cube(x: int) -> int {
    x * x * x
}

/// Whether `x` lies in the range of `i32`.
pub open spec fn fits_i32(x: int) -> bool {
    i32::MIN <= x <= i32::MAX
}

/// What the path tail is answered with.
pub open spec fn xor_power3_spec(tail: Seq<char>) -> Result<i32, XorPowerError> {
    match packet_ids(tail) {
        None => Err(XorPowerError::InvalidNumber),
        Some(nums) => {
            let c = cube(xor_fold(nums) as int);
            if fits_i32(c) {
                Ok(c as i32)
            } else {
                Err(XorPowerError::Overflow)
            }
        },
    }
}

/// Every packet id goes into the XOR, in order: one id is its own XOR, and
/// appending an id XORs it into the result.
pub proof fn law_xor_fold_takes_every_id(nums: Seq<i32>, x: i32)
    ensures
        xor_fold(seq![x]) == x,
        nums.len() > 0 ==> xor_fold(nums.push(x)) == xor_fold(nums) ^ x,
{
    assert(nums.push(x).drop_last() =~= nums);
}

/// The ids are read piece by piece: every piece must be an `i32`, and then the
/// ids are those values, in order.
pub proof fn law_parse_all_reads_each_piece(pieces: Seq<Seq<char>>)
    ensures
        parse_all(pieces) is Some <==> forall|k: int|
            0 <= k < pieces.len() ==> #[trigger] parse_i32(pieces[k]) is Some,
        parse_all(pieces) matches Some(ids) ==> ids.len() == pieces.len() && forall|k: int|
            0 <= k < pieces.len() ==> parse_i32(#[trigger] pieces[k]) == Some(ids[k]),
    decreases pieces.len(),
{
    if pieces.len() > 0 {
        let rest = pieces.drop_first();
        law_parse_all_reads_each_piece(rest);
        assert forall|k: int| 0 < k < pieces.len() implies #[trigger] pieces[k] == rest[k - 1] by {}
        if parse_all(pieces) is Some {
            let ids = parse_all(pieces).unwrap();
            let tail = parse_all(rest).unwrap();
            assert forall|k: int| 0 <= k < pieces.len() implies parse_i32(#[trigger] pieces[k])
                == Some(ids[k]) by {
                if k > 0 {
                    assert(ids[k] == tail[k - 1]);
                }
            }
        }
        if forall|k: int| 0 <= k < pieces.len() ==> #[trigger] parse_i32(pieces[k]) is Some {
            assert(parse_i32(pieces[0]) is Some);
            assert forall|k: int| 0 <= k < rest.len() implies #[trigger] parse_i32(rest[k]) is Some by {
                assert(rest[k] == pieces[k + 1]);
            }
        }
    }
}

/// Splitting on `sep`: a text without `sep` is one piece, and a text that
/// starts with a piece free of `sep`, then `sep`, splits into that piece
/// followed by the pieces of the rest.
pub proof fn law_split_on_cuts_at_each_separator(a: Seq<char>, b: Seq<char>, sep: char)
    requires
        forall|k: int| 0 <= k < a.len() ==> #[trigger] a[k] != sep,
    ensures
        split_on(a, sep) == seq![a],
        split_on(a + seq![sep] + b, sep) == seq![a] + split_on(b, sep),
{
    lemma_first_index_at(a, sep, a.len() as int);
    let s = a + seq![sep] + b;
    assert forall|m: int| 0 <= m < a.len() implies s[m] != sep by {
        assert(s[m] == a[m]);
    }
    assert(s[a.len() as int] == sep);
    lemma_first_index_at(s, sep, a.len() as int);
    assert(s.subrange(0, a.len() as int) =~= a);
    assert(s.subrange(a.len() as int + 1, s.len() as int) =~= b);
}

proof fn lemma_first_index(s: Seq<char>, c: char)
    ensures
        0 <= first_index(s, c) <= s.len(),
        forall|k: int| 0 <= k < first_index(s, c) ==> s[k] != c,
        first_index(s, c) < s.len() ==> s[first_index(s, c)] == c,
    decreases s.len(),
{
    if s.len() > 0 && s[0] != c {
        lemma_first_index(s.drop_first(), c);
        assert forall|k: int| 0 <= k < first_index(s, c) implies s[k] != c by {
            if k > 0 {
                assert(s[k] == s.drop_first()[k - 1]);
            }
        }
    }
}

proof fn lemma_first_index_at(s: Seq<char>, c: char, k: int)
    requires
        0 <= k <= s.len(),
        forall|m: int| 0 <= m < k ==> s[m] != c,
        k < s.len() ==> s[k] == c,
    ensures
        first_index(s, c) == k,
    decreases s.len(),
{
    if s.len() > 0 && k > 0 {
        assert forall|m: int| 0 <= m < k - 1 implies s.drop_first()[m] != c by {
            assert(s.drop_first()[m] == s[m + 1]);
        }
        lemma_first_index_at(s.drop_first(), c, k - 1);
    }
}

/// An integer whose square leaves the range of `i32` has a cube outside it too.
proof fn lemma_cube_outside(x: int)
    requires
        x * x > i32::MAX || x * x < i32::MIN,
    ensures
        !fits_i32(cube(x)),
{
    assert(x * x >= 0) by (nonlinear_arith);
    if x > 0 {
        assert(x * x * x >= x * x) by (nonlinear_arith)
            requires
                x > 0,
        ;
    } else {
        assert(x <= -46341) by (nonlinear_arith)
            requires
                x <= 0,
                x * x > 2147483647,
        ;
        assert(x * x * x < -2147483648) by (nonlinear_arith)
            requires
                x <= -46341,
        ;
    }
}

/// The packet ids of the path tail: each piece between slashes read as an
/// `i32`; `None` when a piece is not one.
pub fn parse_packet_ids(tail: &str) -> (r: Option<Vec<i32>>)
    ensures
        match packet_ids(tail@) {
            None => r is None,
            Some(nums) => r matches Some(v) && v@ == nums && nums.len() >= 1,
        },
{
    let chars = chars_of(tail);
    let n = chars.len();
    let ghost s = chars@;
    let mut out: Vec<i32> = Vec::new();
    let mut start: usize = 0;
    assert(s.subrange(0, n as int) =~= s);
    proof {
        match parse_all(split_on(s, '/')) {
            Some(all) => {
                assert(out@ + all =~= all);
            },
            None => {},
        }
    }
    loop
        invariant
            s == tail@,
            s == chars@,
            n == s.len(),
            start <= n,
            packet_ids(s) == (match parse_all(split_on(s.subrange(start as int, n as int), '/')) {
                None => None,
                Some(rest) => Some(out@ + rest),
            }),
        decreases n - start,
    {
        let mut j: usize = start;
        while j < n && chars[j] != '/'
            invariant
                start <= j <= n,
                n == chars@.len(),
                forall|m: int| start <= m < j ==> chars@[m] != '/',
            decreases n - j,
        {
            j = j + 1;
        }
        let ghost rest = s.subrange(start as int, n as int);
        proof {
            assert forall|m: int| 0 <= m < j - start implies rest[m] != '/' by {
                assert(rest[m] == s[start + m]);
            }
            lemma_first_index_at(rest, '/', j - start);
        }
        let piece = &chars.as_slice()[start..j];
        assert(piece@ == rest.subrange(0, j - start));
        let parsed = parse_i32_chars(piece);
        match parsed {
            None => {
                if j < n {
                    assert(split_on(rest, '/')[0] == piece@);
                } else {
                    assert(rest.subrange(0, j - start) =~= rest);
                    assert(split_on(rest, '/')[0] == piece@);
                }
                return None;
            },
            Some(x) => {
                let ghost before = out@;
                out.push(x);
                if j == n {
                    assert(rest.subrange(0, j - start) =~= rest);
                    assert(split_on(rest, '/') == seq![rest]);
                    assert(split_on(rest, '/').drop_first() =~= Seq::<Seq<char>>::empty());
                    assert(parse_i32(rest) == Some(x));
                    assert(parse_all(Seq::<Seq<char>>::empty()) == Some(Seq::<i32>::empty()));
                    assert(parse_all(split_on(rest, '/')) == Some(seq![x] + Seq::<i32>::empty()));
                    assert(out@ =~= before + (seq![x] + Seq::<i32>::empty()));
                    return Some(out);
                }
                let ghost after = s.subrange(j + 1, n as int);
                assert(rest.subrange(j - start + 1, rest.len() as int) =~= after);
                assert(split_on(rest, '/').drop_first() =~= split_on(after, '/'));
                proof {
                    match parse_all(split_on(after, '/')) {
                        Some(tail_ids) => {
                            assert(out@ + tail_ids =~= before + (seq![x] + tail_ids));
                        },
                        None => {},
                    }
                }
                start = j + 1;
            },
        }
    }
}

/// The XOR of all `nums`, folded from the left starting with `nums[0]`.
pub fn xor_all(nums: &[i32]) -> (r: i32)
    requires
        nums@.len() >= 1,
    ensures
        r == xor_fold(nums@),
{
    let mut r = nums[0];
    let mut i: usize = 1;
    assert(xor_fold(nums@.subrange(0, 1)) == nums@[0]);
    while i < nums.len()
        invariant
            1 <= i <= nums@.len(),
            r == xor_fold(nums@.subrange(0, i as int)),
        decreases nums.len() - i,
    {
        assert(nums@.subrange(0, i + 1).drop_last() =~= nums@.subrange(0, i as int));
        r = r ^ nums[i];
        i = i + 1;
    }
    assert(nums@.subrange(0, nums@.len() as int) =~= nums@);
    r
}

/// `x` to the third power, or `None` when that leaves the range of `i32`.
pub fn cube_i32(x: i32) -> (r: Option<i32>)
    ensures
        fits_i32(cube(x as int)) ==> r == Some(cube(x as int) as i32),
        !fits_i32(cube(x as int)) ==> r is None,
{
    match x.checked_mul(x) {
        None => {
            proof {
                lemma_cube_outside(x as int);
            }
            None
        },
        Some(sq) => {
            assert(x * sq == cube(x as int)) by (nonlinear_arith)
                requires
                    sq == x * x,
            ;
            x.checked_mul(sq)
        },
    }
}

/// The answer to `GET /1/<tail>`: the cube of the XOR of the packet ids in
/// `tail`, `InvalidNumber` when a piece is not an `i32`, `Overflow` when the
/// cube leaves the range of `i32`.
pub fn xor_power3(tail: &str) -> (r: Result<i32, XorPowerError>)
    ensures
        r == xor_power3_spec(tail@),
{
    match parse_packet_ids(tail) {
        None => Err(XorPowerError::InvalidNumber),
        Some(nums) => {
            let x = xor_all(nums.as_slice());
            match cube_i32(x) {
                Some(c) => Ok(c),
                None => Err(XorPowerError::Overflow),
            }
        },
    }
}

} // verus!
