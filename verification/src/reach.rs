use vstd::prelude::*;

use crate::field::adjacent;
use crate::field::Field;

verus! {

/// A cell the flood fill spreads from: on the grid, not a mine, and with no
/// mines around it (its stored count is zero).
pub open spec fn blank(f: &Field, r: int, c: int) -> bool {
    &&& f.in_bounds(r, c)
    &&& !f.cell(r, c).is_bomb
    &&& f.cell(r, c).bomb_count == 0
}

/// Whether `path` is a flood-fill path on `f` from `(r0, c0)` to `(r1, c1)`:
/// it starts at `(r0, c0)`, ends at `(r1, c1)`, stays on the grid,
/// consecutive positions touch, and every position before the last is a
/// blank, unrevealed cell of `f`.
pub open spec fn flood_path_ok(
    f: &Field,
    path: Seq<(int, int)>,
    r0: int,
    c0: int,
    r1: int,
    c1: int,
) -> bool {
    &&& path.len() >= 1
    &&& path[0] == (r0, c0)
    &&& path[path.len() - 1] == (r1, c1)
    &&& forall|i: int|
        #![trigger path[i]]
        0 <= i < path.len() ==> f.in_bounds(path[i].0, path[i].1)
    &&& forall|i: int|
        #![trigger path[i]]
        0 <= i < path.len() - 1 ==> adjacent(path[i].0, path[i].1, path[i + 1].0, path[i + 1].1)
    &&& forall|i: int|
        #![trigger path[i]]
        0 <= i < path.len() - 1 ==> blank(f, path[i].0, path[i].1) && !f.cell(
            path[i].0,
            path[i].1,
        ).is_revealed
}

/// Revealing `(r0, c0)` on `f` reaches `(r1, c1)`: the two are equal, or a
/// chain of adjacent, blank, unrevealed cells leads from the first to the
/// second. The cells a reveal opens are exactly the ones it reaches.
pub open spec fn flood_reaches(f: &Field, r0: int, c0: int, r1: int, c1: int) -> bool {
    exists|path: Seq<(int, int)>| flood_path_ok(f, path, r0, c0, r1, c1)
}

/// The two fields have the same shape and, pointwise, the same mines,
/// stored counts and flags; only the revealed marks may differ.
pub open spec fn same_board(f1: &Field, f2: &Field) -> bool {
    &&& f1.same_dims(f2)
    &&& forall|r: int, c: int|
        #![trigger f2.cell(r, c)]
        f1.in_bounds(r, c) ==> {
            &&& f2.cell(r, c).is_bomb == f1.cell(r, c).is_bomb
            &&& f2.cell(r, c).bomb_count == f1.cell(r, c).bomb_count
            &&& f2.cell(r, c).has_flag == f1.cell(r, c).has_flag
        }
}

/// Every cell revealed in `f1` is still revealed in `f2`: revealing is
/// monotonic.
pub open spec fn rev_grows(f1: &Field, f2: &Field) -> bool {
    forall|r: int, c: int|
        #![trigger f2.cell(r, c)]
        f1.in_bounds(r, c) && f1.cell(r, c).is_revealed ==> f2.cell(r, c).is_revealed
}

/// Every in-bounds neighbor of `(r, c)` is revealed in `f`.
pub open spec fn neighbors_revealed(f: &Field, r: int, c: int) -> bool {
    forall|rr: int, cc: int|
        #![trigger f.cell(rr, cc)]
        f.in_bounds(rr, cc) && adjacent(r, c, rr, cc) ==> f.cell(rr, cc).is_revealed
}

/// Every blank cell of `f0` that `ff` has newly revealed has all its
/// neighbors revealed in `ff`: a finished flood leaves no blank frontier.
pub open spec fn new_blanks_closed(f0: &Field, ff: &Field) -> bool {
    forall|r: int, c: int|
        #![trigger ff.cell(r, c)]
        f0.in_bounds(r, c) && ff.cell(r, c).is_revealed && !f0.cell(r, c).is_revealed && blank(
            f0,
            r,
            c,
        ) ==> neighbors_revealed(ff, r, c)
}

/// The cells revealed in `ff` are exactly those of `f0` plus everything a
/// reveal starting at `(sr, sc)` reaches on `f0`.
pub open spec fn reveals_exactly(f0: &Field, ff: &Field, sr: int, sc: int) -> bool {
    forall|r: int, c: int|
        #![trigger ff.cell(r, c)]
        f0.in_bounds(r, c) ==> (ff.cell(r, c).is_revealed <==> f0.cell(r, c).is_revealed
            || flood_reaches(f0, sr, sc, r, c))
}

/// A chord's candidate starting cell: still hidden and not flagged.
pub open spec fn chord_seed_ok(f: &Field, nr: int, nc: int) -> bool {
    !f.cell(nr, nc).is_revealed && !f.cell(nr, nc).has_flag
}

/// Some neighbor of `(pr, pc)` is a mine the player has not flagged.
pub open spec fn misflagged(f: &Field, pr: int, pc: int) -> bool {
    exists|nr: int, nc: int|
        #![trigger f.cell(nr, nc)]
        f.in_bounds(nr, nc) && adjacent(pr, pc, nr, nc) && f.cell(nr, nc).is_bomb && !f.cell(
            nr,
            nc,
        ).has_flag
}

/// A chord on `(pr, pc)` reaches `(r, c)`: some hidden, unflagged neighbor
/// of the chorded cell reveal-reaches it.
pub open spec fn chord_reaches(f0: &Field, pr: int, pc: int, r: int, c: int) -> bool {
    exists|nr: int, nc: int|
        #![trigger flood_reaches(f0, nr, nc, r, c)]
        f0.in_bounds(nr, nc) && adjacent(pr, pc, nr, nc) && chord_seed_ok(f0, nr, nc)
            && flood_reaches(f0, nr, nc, r, c)
}

/// The cells revealed in `ff` are exactly those of `f0` plus everything a
/// chord on `(pr, pc)` reaches.
pub open spec fn chord_opens(f0: &Field, ff: &Field, pr: int, pc: int) -> bool {
    forall|r: int, c: int|
        #![trigger ff.cell(r, c)]
        f0.in_bounds(r, c) ==> (ff.cell(r, c).is_revealed <==> f0.cell(r, c).is_revealed
            || chord_reaches(f0, pr, pc, r, c))
}

/// A reveal reaches its own starting cell.
pub proof fn lemma_reach_self(f: &Field, r: int, c: int)
    requires
        f.in_bounds(r, c),
    ensures
        flood_reaches(f, r, c, r, c),
{
    let path = seq![(r, c)];
    assert(flood_path_ok(f, path, r, c, r, c));
}

/// From a revealed or non-blank starting cell, a reveal reaches nothing but
/// the start itself.
pub proof fn lemma_reach_stuck(f: &Field, r0: int, c0: int, r1: int, c1: int)
    requires
        flood_reaches(f, r0, c0, r1, c1),
        f.cell(r0, c0).is_revealed || !blank(f, r0, c0),
    ensures
        r1 == r0 && c1 == c0,
{
    let path = choose|path: Seq<(int, int)>| flood_path_ok(f, path, r0, c0, r1, c1);
    if path.len() >= 2 {
        assert(blank(f, path[0].0, path[0].1) && !f.cell(path[0].0, path[0].1).is_revealed);
        assert(false);
    }
}

/// A reach to a blank, unrevealed cell extends to each of its neighbors.
pub proof fn lemma_reach_extend(f: &Field, r0: int, c0: int, r1: int, c1: int, r2: int, c2: int)
    requires
        flood_reaches(f, r0, c0, r1, c1),
        blank(f, r1, c1),
        !f.cell(r1, c1).is_revealed,
        adjacent(r1, c1, r2, c2),
        f.in_bounds(r2, c2),
    ensures
        flood_reaches(f, r0, c0, r2, c2),
{
    let path = choose|path: Seq<(int, int)>| flood_path_ok(f, path, r0, c0, r1, c1);
    let path2 = path.push((r2, c2));
    assert forall|i: int|
        #![trigger path2[i]]
        0 <= i < path2.len() - 1 implies adjacent(
        path2[i].0,
        path2[i].1,
        path2[i + 1].0,
        path2[i + 1].1,
    ) && blank(f, path2[i].0, path2[i].1) && !f.cell(path2[i].0, path2[i].1).is_revealed by {
        assert(path2[i] == path[i]);
        if i < path.len() - 1 {
            assert(path2[i + 1] == path[i + 1]);
        } else {
            assert(path2[i + 1] == (r2, c2));
            assert(path[i] == (r1, c1));
        }
    }
    assert(flood_path_ok(f, path2, r0, c0, r2, c2));
}

/// The flood fill stops at the blank region's border: every reached cell
/// other than the start touches a blank, unrevealed cell that the same
/// reveal reaches. Nothing beyond that border is opened, because a cell two
/// steps away from every reached blank cell is out of reach altogether.
pub proof fn lemma_reach_border(f: &Field, r0: int, c0: int, r1: int, c1: int)
    requires
        flood_reaches(f, r0, c0, r1, c1),
        !(r1 == r0 && c1 == c0),
    ensures
        exists|br: int, bc: int|
            #![trigger adjacent(br, bc, r1, c1)]
            blank(f, br, bc) && !f.cell(br, bc).is_revealed && adjacent(br, bc, r1, c1)
                && flood_reaches(f, r0, c0, br, bc),
{
    let path = choose|path: Seq<(int, int)>| flood_path_ok(f, path, r0, c0, r1, c1);
    assert(path.len() >= 2);
    let i = path.len() - 2;
    let prev = path[i as int];
    let prefix = path.subrange(0, path.len() - 1);
    assert forall|j: int|
        #![trigger prefix[j]]
        0 <= j < prefix.len() implies f.in_bounds(prefix[j].0, prefix[j].1) by {
        assert(prefix[j] == path[j]);
    }
    assert forall|j: int|
        #![trigger prefix[j]]
        0 <= j < prefix.len() - 1 implies adjacent(
        prefix[j].0,
        prefix[j].1,
        prefix[j + 1].0,
        prefix[j + 1].1,
    ) && blank(f, prefix[j].0, prefix[j].1) && !f.cell(prefix[j].0, prefix[j].1).is_revealed by {
        assert(prefix[j] == path[j]);
        assert(prefix[j + 1] == path[j + 1]);
    }
    assert(flood_path_ok(f, prefix, r0, c0, prev.0, prev.1));
    assert(adjacent(prev.0, prev.1, r1, c1));
    assert(blank(f, prev.0, prev.1) && !f.cell(prev.0, prev.1).is_revealed);
}

/// Reaches shrink as cells get revealed: whatever a reveal reaches on the
/// more-revealed board `f2`, it already reached on `f1`.
pub proof fn lemma_reach_mono(f1: &Field, f2: &Field, r0: int, c0: int, r1: int, c1: int)
    requires
        same_board(f1, f2),
        rev_grows(f1, f2),
        flood_reaches(f2, r0, c0, r1, c1),
    ensures
        flood_reaches(f1, r0, c0, r1, c1),
{
    let path = choose|path: Seq<(int, int)>| flood_path_ok(f2, path, r0, c0, r1, c1);
    assert forall|i: int|
        #![trigger path[i]]
        0 <= i < path.len() - 1 implies blank(f1, path[i].0, path[i].1) && !f1.cell(
        path[i].0,
        path[i].1,
    ).is_revealed by {
        assert(f1.in_bounds(path[i].0, path[i].1));
        assert(f2.cell(path[i].0, path[i].1).is_bomb == f1.cell(path[i].0, path[i].1).is_bomb);
        if f1.cell(path[i].0, path[i].1).is_revealed {
            assert(f2.cell(path[i].0, path[i].1).is_revealed);
        }
    }
    assert forall|i: int|
        #![trigger path[i]]
        0 <= i < path.len() implies f1.in_bounds(path[i].0, path[i].1) by {
        assert(f2.in_bounds(path[i].0, path[i].1));
    }
    assert(flood_path_ok(f1, path, r0, c0, r1, c1));
}

/// A finished reveal leaves no newly revealed blank cell with a hidden
/// neighbor: closure follows from the exact description of what it opens.
pub proof fn lemma_reveal_post_closed(f0: &Field, ff: &Field, sr: int, sc: int)
    requires
        same_board(f0, ff),
        reveals_exactly(f0, ff, sr, sc),
    ensures
        new_blanks_closed(f0, ff),
{
    assert forall|r: int, c: int|
        #![trigger ff.cell(r, c)]
        f0.in_bounds(r, c) && ff.cell(r, c).is_revealed && !f0.cell(r, c).is_revealed && blank(
            f0,
            r,
            c,
        ) implies neighbors_revealed(ff, r, c) by {
        assert(flood_reaches(f0, sr, sc, r, c));
        assert forall|rr: int, cc: int|
            #![trigger ff.cell(rr, cc)]
            ff.in_bounds(rr, cc) && adjacent(r, c, rr, cc) implies ff.cell(
            rr,
            cc,
        ).is_revealed by {
            lemma_reach_extend(f0, sr, sc, r, c, rr, cc);
        }
    }
}

/// Closure composes along two reveal steps.
pub proof fn lemma_closed_compose(f0: &Field, f1: &Field, f2: &Field)
    requires
        same_board(f0, f1),
        same_board(f1, f2),
        rev_grows(f0, f1),
        rev_grows(f1, f2),
        new_blanks_closed(f0, f1),
        new_blanks_closed(f1, f2),
    ensures
        new_blanks_closed(f0, f2),
{
    assert forall|r: int, c: int|
        #![trigger f2.cell(r, c)]
        f0.in_bounds(r, c) && f2.cell(r, c).is_revealed && !f0.cell(r, c).is_revealed && blank(
            f0,
            r,
            c,
        ) implies neighbors_revealed(f2, r, c) by {
        if f1.cell(r, c).is_revealed {
            assert(neighbors_revealed(f1, r, c));
            assert forall|rr: int, cc: int|
                #![trigger f2.cell(rr, cc)]
                f2.in_bounds(rr, cc) && adjacent(r, c, rr, cc) implies f2.cell(
                rr,
                cc,
            ).is_revealed by {
                assert(f1.cell(rr, cc).is_revealed);
            }
        } else {
            assert(blank(f1, r, c));
            assert(neighbors_revealed(f2, r, c));
        }
    }
}

/// Walking a flood path of `f0` through a closed, more-revealed field `ff`:
/// if the start is revealed in `ff` and `ff` leaves no newly revealed blank
/// cell with a hidden neighbor, the end of the path is revealed too.
pub proof fn lemma_flood_path_revealed(
    f0: &Field,
    ff: &Field,
    path: Seq<(int, int)>,
    r0: int,
    c0: int,
    r1: int,
    c1: int,
)
    requires
        f0.same_dims(ff),
        flood_path_ok(f0, path, r0, c0, r1, c1),
        ff.cell(r0, c0).is_revealed,
        new_blanks_closed(f0, ff),
    ensures
        ff.cell(r1, c1).is_revealed,
    decreases path.len(),
{
    if path.len() >= 2 {
        assert(blank(f0, r0, c0) && !f0.cell(r0, c0).is_revealed);
        assert(neighbors_revealed(ff, r0, c0));
        let nxt = path[1];
        assert(adjacent(r0, c0, nxt.0, nxt.1));
        assert(ff.in_bounds(nxt.0, nxt.1));
        assert(ff.cell(nxt.0, nxt.1).is_revealed);
        let rest = path.subrange(1, path.len() as int);
        assert forall|i: int|
            #![trigger rest[i]]
            0 <= i < rest.len() implies f0.in_bounds(rest[i].0, rest[i].1) by {
            assert(rest[i] == path[i + 1]);
        }
        assert forall|i: int|
            #![trigger rest[i]]
            0 <= i < rest.len() - 1 implies adjacent(
            rest[i].0,
            rest[i].1,
            rest[i + 1].0,
            rest[i + 1].1,
        ) && blank(f0, rest[i].0, rest[i].1) && !f0.cell(rest[i].0, rest[i].1).is_revealed by {
            assert(rest[i] == path[i + 1]);
            assert(rest[i + 1] == path[i + 2]);
        }
        assert(flood_path_ok(f0, rest, nxt.0, nxt.1, r1, c1));
        lemma_flood_path_revealed(f0, ff, rest, nxt.0, nxt.1, r1, c1);
    }
}

} // verus!
