use vstd::prelude::*;

verus! {

/// The side of the smallest square grid with at least `n` cells:
/// `ceil(sqrt(n))`.
pub open spec fn ceil_sqrt(n: nat) -> nat
    decreases n,
{
    if n == 0 {
        0
    } else {
        let s = ceil_sqrt((n - 1) as nat);
        if s * s >= n {
            s
        } else {
            s + 1
        }
    }
}

/// `s` is the smallest number whose square is at least `n`.
pub open spec fn is_grid_side(s: nat, n: nat) -> bool {
    s * s >= n && (s == 0 || (s - 1) * (s - 1) < n)
}

/// `ceil_sqrt(n)` is the smallest number whose square reaches `n`, and the
/// only number with that property.
pub proof fn lemma_ceil_sqrt(n: nat)
    ensures
        is_grid_side(ceil_sqrt(n), n),
        forall|s: nat| #[trigger] is_grid_side(s, n) ==> s == ceil_sqrt(n),
    decreases n,
{
    if n > 0 {
        lemma_ceil_sqrt((n - 1) as nat);
        let s = ceil_sqrt((n - 1) as nat);
        if s * s < n {
            assert((s + 1) * (s + 1) >= n) by (nonlinear_arith)
                requires
                    s * s >= n - 1,
            ;
        }
    }
    let c = ceil_sqrt(n);
    assert forall|s: nat| #[trigger] is_grid_side(s, n) implies s == c by {
        if s < c {
            assert(s * s <= (c - 1) * (c - 1)) by (nonlinear_arith)
                requires
                    s < c,
            ;
        } else if s > c {
            assert(c * c <= (s - 1) * (s - 1)) by (nonlinear_arith)
                requires
                    c < s,
            ;
        }
    }
}

/// A side of at least two for two cells or more.
pub proof fn lemma_ceil_sqrt_at_least_two(n: nat)
    requires
        n >= 2,
    ensures
        ceil_sqrt(n) >= 2,
{
    lemma_ceil_sqrt(n);
    let s = ceil_sqrt(n);
    if s < 2 {
        assert(s * s <= 1) by (nonlinear_arith)
            requires
                s < 2,
        ;
    }
}

/// The side of the smallest square grid that holds `n` cells.
pub fn grid_side(n: usize) -> (s: usize)
    ensures
        s == ceil_sqrt(n as nat),
{
    let mut s: usize = 0;
    loop
        invariant
            s <= n,
            s == 0 || (s - 1) * (s - 1) < n,
        ensures
            is_grid_side(s as nat, n as nat),
        decreases n - s,
    {
        proof {
            assert((s as nat) * (s as nat) <= u128::MAX) by (nonlinear_arith)
                requires
                    s <= usize::MAX,
            ;
        }
        let sq: u128 = (s as u128) * (s as u128);
        if sq >= n as u128 {
            break;
        }
        proof {
            if s > 0 {
                assert(s <= s * s) by (nonlinear_arith)
                    requires
                        s > 0,
                ;
            }
        }
        s = s + 1;
    }
    proof {
        lemma_ceil_sqrt(n as nat);
    }
    s
}

/// The sheet for `n` cells of `w` x `h` pixels has a width and a height
/// that fit in `u32`, and a pixel count that fits in `usize`.
pub open spec fn sheet_fits(n: nat, w: nat, h: nat) -> bool {
    let side = ceil_sqrt(n);
    side * w <= u32::MAX && side * h <= u32::MAX && (side * w) * (side * h) <= usize::MAX
}

/// The `(width, height)` of the sheet for `n` cells of `w` x `h` pixels, or
/// `None` when it does not fit (see `sheet_fits`).
pub fn sheet_size(n: usize, w: u32, h: u32) -> (r: Option<(u32, u32)>)
    ensures
        r.is_some() <==> sheet_fits(n as nat, w as nat, h as nat),
        r matches Some(d) ==> d.0 == ceil_sqrt(n as nat) * w && d.1 == ceil_sqrt(n as nat) * h,
{
    let side = grid_side(n);
    let sw: u64 = match (side as u64).checked_mul(w as u64) {
        Some(v) => v,
        None => {
            return None;
        },
    };
    let sh: u64 = match (side as u64).checked_mul(h as u64) {
        Some(v) => v,
        None => {
            return None;
        },
    };
    if sw > u32::MAX as u64 || sh > u32::MAX as u64 {
        return None;
    }
    match (sw as usize).checked_mul(sh as usize) {
        Some(_) => Some((sw as u32, sh as u32)),
        None => None,
    }
}

} // verus!
