//! Structuring-element generation: the offset sets for the square, circle
//! and plus shapes of a given radius.
//!
//! A radius `r >= 1` spans `r - 1` steps from the origin: the square is the
//! full `(2r-1) x (2r-1)` block, the circle keeps the block's offsets within
//! Euclidean distance `r - 1` of the origin, and the plus keeps the two
//! axes. At radius 1 all three degenerate to the single origin offset.

use vstd::prelude::*;

use vstd::arithmetic::div_mod::lemma_fundamental_div_mod;
use vstd::arithmetic::div_mod::lemma_fundamental_div_mod_converse;
use vstd::arithmetic::div_mod::lemma_mod_bound;

use crate::morph::symmetric;

verus! {

/// Membership in the square of radius `r`: both coordinates within `r - 1`
/// of the origin.
pub open spec fn in_square(r: int, o: (i32, i32)) -> bool {
    -(r - 1) <= o.0 <= r - 1 && -(r - 1) <= o.1 <= r - 1
}

/// Membership in the circle of radius `r`: within the square and within
/// Euclidean distance `r - 1` of the origin.
pub open spec fn in_circle(r: int, o: (i32, i32)) -> bool {
    in_square(r, o) && o.0 * o.0 + o.1 * o.1 <= (r - 1) * (r - 1)
}

/// Membership in the plus of radius `r`: on one of the two axes, within
/// `r - 1` of the origin.
pub open spec fn in_plus(r: int, o: (i32, i32)) -> bool {
    (o.1 == 0 && -(r - 1) <= o.0 <= r - 1) || (o.0 == 0 && -(r - 1) <= o.1 <= r - 1)
}

/// The offset at position `i` of the square enumeration: the block is
/// walked column by column, `2r - 1` offsets per column.
pub open spec fn square_offset(r: int, i: int) -> (i32, i32) {
    ((i / (2 * r - 1) - (r - 1)) as i32, (i % (2 * r - 1) - (r - 1)) as i32)
}

/// The full square enumeration of radius `r`.
pub open spec fn square_seq(r: int) -> Seq<(i32, i32)> {
    Seq::new((((2 * r - 1) * (2 * r - 1)) as nat), (|i: int| square_offset(r, i)))
}

/// The first `k` offsets of the square enumeration, filtered by distance.
pub open spec fn circle_prefix(r: int, k: int) -> Seq<(i32, i32)> {
    square_seq(r).take(k).filter((|o: (i32, i32)| in_circle(r, o)))
}

/// The circle enumeration: the square enumeration filtered by distance.
pub open spec fn circle_seq(r: int) -> Seq<(i32, i32)> {
    circle_prefix(r, square_seq(r).len() as int)
}

/// The square enumeration contains exactly the offsets of the square, and
/// is symmetric about the origin.
pub proof fn lemma_square_seq_chars(r: int)
    requires
        1 <= r <= 0x7fff_ffff,
    ensures
        forall|o: (i32, i32)| square_seq(r).contains(o) <==> in_square(r, o),
        symmetric(square_seq(r)),
{
    let s = square_seq(r);
    let side = 2 * r - 1;
    assert forall|o: (i32, i32)| s.contains(o) implies in_square(r, o) by {
        let i = choose|i: int| 0 <= i < s.len() && s[i] == o;
        lemma_fundamental_div_mod(i, side);
        lemma_mod_bound(i, side);
        let q = i / side;
        let rem = i % side;
        assert(0 <= q < side) by (nonlinear_arith)
            requires
                i == side * q + rem,
                0 <= rem < side,
                0 <= i < side * side,
                side > 0,
        ;
    }
    assert forall|o: (i32, i32)| in_square(r, o) implies s.contains(o) by {
        let q = o.0 + (r - 1);
        let rem = o.1 + (r - 1);
        let i = q * side + rem;
        assert(0 <= i < side * side) by (nonlinear_arith)
            requires
                0 <= q < side,
                0 <= rem < side,
                i == q * side + rem,
        ;
        lemma_fundamental_div_mod_converse(i, side, q, rem);
        assert(s[i] == o);
    }
    assert forall|k: int| 0 <= k < s.len() implies s[k].0 > i32::MIN && s[k].1 > i32::MIN
        && s.contains(((-(s[k].0)) as i32, (-(s[k].1)) as i32)) by {
        let o = s[k];
        assert(s.contains(o));
        let m = (((-(o.0)) as i32), ((-(o.1)) as i32));
        assert(in_square(r, m));
    }
}

/// The square structuring element: every offset `(dx, dy)` with
/// `|dx| <= r - 1` and `|dy| <= r - 1`, enumerated column by column.
pub fn square(window_size: u32) -> (offs: Vec<(i32, i32)>)
    requires
        1 <= window_size <= 0x7fff_ffffu32,
    ensures
        offs@ == square_seq(window_size as int),
        offs@.len() == (2 * window_size - 1) * (2 * window_size - 1),
        forall|o: (i32, i32)| offs@.contains(o) <==> in_square(window_size as int, o),
        symmetric(offs@),
        window_size == 1 ==> offs@ == seq![(0i32, 0i32)],
{
    let ghost r = window_size as int;
    let ghost side = 2 * r - 1;
    let lo: i32 = -(window_size as i32) + 1;
    let hi: i32 = window_size as i32;
    let mut offs: Vec<(i32, i32)> = Vec::new();
    let mut x: i32 = lo;
    while x < hi
        invariant
            lo == 1 - r,
            hi == r,
            1 <= r <= 0x7fff_ffff,
            lo <= x <= hi,
            offs@.len() == (x - lo) * side,
            side == 2 * r - 1,
            forall|i: int| 0 <= i < offs@.len() ==> #[trigger] offs@[i] == square_offset(r, i),
        decreases hi - x,
    {
        let mut y: i32 = lo;
        while y < hi
            invariant
                lo == 1 - r,
                hi == r,
                1 <= r <= 0x7fff_ffff,
                lo <= x < hi,
                lo <= y <= hi,
                side == 2 * r - 1,
                offs@.len() == (x - lo) * side + (y - lo),
                forall|i: int| 0 <= i < offs@.len() ==> #[trigger] offs@[i] == square_offset(r, i),
            decreases hi - y,
        {
            proof {
                let i = (x - lo) * side + (y - lo);
                lemma_fundamental_div_mod_converse(i, side, x - lo, y - lo);
            }
            offs.push((x, y));
            y = y + 1;
        }
        proof {
            assert((x - lo) * side + side == (x + 1 - lo) * side) by (nonlinear_arith);
        }
        x = x + 1;
    }
    proof {
        assert(offs@ =~= square_seq(r));
        lemma_square_seq_chars(r);
        if window_size == 1 {
            assert(offs@[0] == square_offset(1, 0));
            assert(offs@ =~= seq![(0i32, 0i32)]);
        }
    }
    offs
}

/// The circle structuring element: the square's offsets within Euclidean
/// distance `r - 1` of the origin, in the square's order.
pub fn circle(window_size: u32) -> (offs: Vec<(i32, i32)>)
    requires
        1 <= window_size <= 0x4000_0000u32,
    ensures
        offs@ == circle_seq(window_size as int),
        forall|o: (i32, i32)| offs@.contains(o) <==> in_circle(window_size as int, o),
        symmetric(offs@),
        window_size == 1 ==> offs@ == seq![(0i32, 0i32)],
{
    let ghost r = window_size as int;
    let sq: Vec<(i32, i32)> = square(window_size);
    proof {
        assert((window_size as int - 1) * (window_size as int - 1) < 0x2000_0000_0000_0000)
            by (nonlinear_arith)
            requires
                1 <= window_size as int <= 0x4000_0000,
        ;
    }
    let t: i64 = (window_size as i64 - 1) * (window_size as i64 - 1);
    let mut offs: Vec<(i32, i32)> = Vec::new();
    let n: usize = sq.len();
    let mut k: usize = 0;
    proof {
        reveal(Seq::filter);
        assert(square_seq(r).take(0) =~= Seq::<(i32, i32)>::empty());
    }
    while k < n
        invariant
            1 <= r <= 0x4000_0000,
            sq@ == square_seq(r),
            forall|o: (i32, i32)| sq@.contains(o) <==> in_square(r, o),
            n == sq@.len(),
            k <= n,
            t == (r - 1) * (r - 1),
            offs@ == circle_prefix(r, k as int),
        decreases n - k,
    {
        let (ox, oy) = sq[k];
        proof {
            assert(sq@.contains(sq@[k as int]));
            assert(in_square(r, (ox, oy)));
            let s1 = square_seq(r).take(k as int + 1);
            assert(s1.drop_last() =~= square_seq(r).take(k as int));
            reveal(Seq::filter);
            assert(0 <= (ox as int) * (ox as int) < 0x2000_0000_0000_0000 && 0 <= (oy as int)
                * (oy as int) < 0x2000_0000_0000_0000) by (nonlinear_arith)
                requires
                    -0x4000_0000 <= ox as int <= 0x4000_0000,
                    -0x4000_0000 <= oy as int <= 0x4000_0000,
            ;
        }
        let dist_sq: i64 = (ox as i64) * (ox as i64) + (oy as i64) * (oy as i64);
        if dist_sq <= t {
            offs.push((ox, oy));
        }
        k = k + 1;
    }
    proof {
        broadcast use vstd::seq_lib::group_filter_ensures;

        let s = square_seq(r);
        let sk = s.take(n as int);
        assert(sk =~= s);
        lemma_square_seq_chars(r);
        assert forall|o: (i32, i32)| offs@.contains(o) implies in_circle(r, o) by {
            let i = choose|i: int| 0 <= i < offs@.len() && offs@[i] == o;
        }
        assert forall|o: (i32, i32)| in_circle(r, o) implies offs@.contains(o) by {
            assert(s.contains(o));
            let i = choose|i: int| 0 <= i < s.len() && s[i] == o;
            assert(sk[i] == o);
        }
        assert forall|k2: int| 0 <= k2 < offs@.len() implies offs@[k2].0 > i32::MIN
            && offs@[k2].1 > i32::MIN && offs@.contains(
            ((-(offs@[k2].0)) as i32, (-(offs@[k2].1)) as i32),
        ) by {
            let o = offs@[k2];
            assert(offs@.contains(o));
            let m = (((-(o.0)) as i32), ((-(o.1)) as i32));
            assert((-(o.0 as int)) * (-(o.0 as int)) == (o.0 as int) * (o.0 as int))
                by (nonlinear_arith);
            assert((-(o.1 as int)) * (-(o.1 as int)) == (o.1 as int) * (o.1 as int))
                by (nonlinear_arith);
            assert(in_circle(r, m));
        }
        if window_size == 1 {
            let z = (0i32, 0i32);
            assert(z.0 * z.0 + z.1 * z.1 <= (r - 1) * (r - 1)) by (nonlinear_arith)
                requires
                    r == 1,
                    z == (0i32, 0i32),
            ;
            assert(in_circle(r, z));
            reveal_with_fuel(Seq::filter, 2);
            assert(sq@ == seq![z]);
            assert(s.take(1) =~= s);
            assert(s.drop_last() =~= Seq::<(i32, i32)>::empty());
            assert(s.last() == z);
            assert(offs@ =~= seq![(0i32, 0i32)]);
        }
    }
    offs
}

/// The plus enumeration after `k` of the `2r - 1` columns: column
/// `x = (1 - r) + (k - 1)` contributes `(x, 0)` then `(0, x)`, except that
/// the origin column contributes `(0, 0)` once.
pub open spec fn plus_prefix(r: int, k: nat) -> Seq<(i32, i32)>
    decreases k,
{
    if k == 0 {
        Seq::empty()
    } else {
        let x: int = (1 - r) + (k - 1);
        let prev = plus_prefix(r, (k - 1) as nat);
        if x != 0 {
            prev.push((x as i32, 0i32)).push((0i32, x as i32))
        } else {
            prev.push((0i32, 0i32))
        }
    }
}

/// The full plus enumeration of radius `r`.
pub open spec fn plus_seq(r: int) -> Seq<(i32, i32)> {
    plus_prefix(r, (2 * r - 1) as nat)
}

/// The plus structuring element: the offsets on the two axes within
/// `r - 1` of the origin, the origin counted once.
pub fn plus(window_size: u32) -> (offs: Vec<(i32, i32)>)
    requires
        1 <= window_size <= 0x7fff_ffffu32,
    ensures
        offs@ == plus_seq(window_size as int),
        offs@.len() == 4 * window_size - 3,
        offs@.no_duplicates(),
        forall|o: (i32, i32)| offs@.contains(o) <==> in_plus(window_size as int, o),
        symmetric(offs@),
        window_size == 1 ==> offs@ == seq![(0i32, 0i32)],
{
    let ghost r = window_size as int;
    let lo: i32 = -(window_size as i32) + 1;
    let hi: i32 = window_size as i32;
    let mut offs: Vec<(i32, i32)> = Vec::new();
    let mut x: i32 = lo;
    while x < hi
        invariant
            lo == 1 - r,
            hi == r,
            1 <= r <= 0x7fff_ffff,
            lo <= x <= hi,
            offs@ == plus_prefix(r, (x - lo) as nat),
            offs@.len() == if x > 0 {
                2 * (x - lo) - 1
            } else {
                2 * (x - lo)
            },
            offs@.no_duplicates(),
            forall|o: (i32, i32)|
                #[trigger] offs@.contains(o) <==> ((o.1 == 0 && lo <= o.0 < x && o.0 != 0) || (
                o.0 == 0 && lo <= o.1 < x)),
        decreases hi - x,
    {
        if x != 0 {
            proof {
                lemma_push_keeps_distinct(offs@, (x, 0i32));
            }
            offs.push((x, 0));
        }
        proof {
            lemma_push_keeps_distinct(offs@, (0i32, x));
        }
        offs.push((0, x));
        x = x + 1;
    }
    proof {
        assert forall|k: int| 0 <= k < offs@.len() implies offs@[k].0 > i32::MIN && offs@[k].1
            > i32::MIN && offs@.contains(((-(offs@[k].0)) as i32, (-(offs@[k].1)) as i32)) by {
            let o = offs@[k];
            assert(offs@.contains(o));
        }
        if window_size == 1 {
            assert(offs@.contains(offs@[0]));
            assert(offs@ =~= seq![(0i32, 0i32)]);
        }
    }
    offs
}

/// Pushing an element not yet present keeps a sequence duplicate-free.
proof fn lemma_push_keeps_distinct(s: Seq<(i32, i32)>, e: (i32, i32))
    requires
        s.no_duplicates(),
        !s.contains(e),
    ensures
        s.push(e).no_duplicates(),
        forall|o: (i32, i32)| #[trigger] s.push(e).contains(o) <==> (s.contains(o) || o == e),
{
    let s2 = s.push(e);
    assert forall|i: int, j: int| 0 <= i < s2.len() && 0 <= j < s2.len() && i != j implies s2[i]
        != s2[j] by {
        if i < s.len() && j < s.len() {
        } else if j == s.len() {
            assert(s.contains(s[i]));
        } else {
            assert(s.contains(s[j]));
        }
    }
    assert forall|o: (i32, i32)| #[trigger] s2.contains(o) implies (s.contains(o) || o == e) by {
        let i = choose|i: int| 0 <= i < s2.len() && s2[i] == o;
        if i < s.len() {
            assert(s.contains(o));
        }
    }
    assert forall|o: (i32, i32)| s.contains(o) || o == e implies s2.contains(o) by {
        if s.contains(o) {
            let i = choose|i: int| 0 <= i < s.len() && s[i] == o;
            assert(s2[i] == o);
        } else {
            assert(s2[s.len() as int] == o);
        }
    }
}

} // verus!
