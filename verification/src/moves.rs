use vstd::prelude::*;

verus! {

/// A move on a grid.
#[derive(Clone, Copy, PartialEq, Eq, Structural, Debug)]
pub struct Move {
    pub move_x: i32,
    pub mov_y: i32,
}

/// The `n` moves numbered 0 to `n - 1`: the `t`-th goes to `t + 1` across and
/// `t * t` down.
pub fn numbered_moves(n: u32) -> (r: Vec<Move>)
    requires
        n <= 46340,
    ensures
        r@.len() == n,
        forall|t: int| 0 <= t < n ==> (#[trigger] r@[t]).move_x == t + 1 && r@[t].mov_y == t * t,
{
    let mut moves: Vec<Move> = Vec::new();
    let mut i: u32 = 0;
    while i < n
        invariant
            i <= n,
            n <= 46340,
            moves@.len() == i,
            forall|t: int| 0 <= t < i ==> (#[trigger] moves@[t]).move_x == t + 1 && moves@[t].mov_y == t * t,
        decreases n - i,
    {
        let t = i as i32;
        assert(t * t <= 46340 * 46340) by (nonlinear_arith)
            requires
                0 <= t <= 46340,
        ;
        moves.push(Move { mov_y: t * t, move_x: t + 1 });
        i = i + 1;
    }
    moves
}

} // verus!
