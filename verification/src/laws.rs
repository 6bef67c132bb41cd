//! What follows from the rules, whatever the plane holds.

use vstd::prelude::*;
use crate::rules::{
    aged, dies, generation_after, mature, neighbor_count, next_generation, nominated, nominates,
    offset_x, offset_y, stays, with_life, Cells,
};
use crate::simulation::first_generation;

verus! {

/// Whether `(x, y)` lies off every edge of the plane, so that all eight
/// positions around it can be stored.
pub open spec fn inland(x: int, y: int) -> bool {
    i64::MIN < x < i64::MAX && i64::MIN < y < i64::MAX
}

/// Adding a cell twice at one position is adding it once: the second cell is
/// turned away, whatever its age, and the first keeps its own.
pub proof fn lemma_add_life_idempotent(cells: Cells, x: int, y: int, first: nat, second: nat)
    ensures
        with_life(with_life(cells, x, y, first), x, y, second) == with_life(cells, x, y, first),
        with_life(cells, x, y, first).contains_key((x, y)),
        !cells.contains_key((x, y)) ==> with_life(cells, x, y, first)[(x, y)] == first,
        cells.contains_key((x, y)) ==> with_life(cells, x, y, first)[(x, y)] == cells[(x, y)],
{
}

/// A cell that takes part in the rules and has two or three neighbours is
/// still there after the generation, one older.
pub proof fn lemma_survival(cells: Cells, x: int, y: int)
    requires
        mature(cells, x, y),
        neighbor_count(cells, x, y) == 2 || neighbor_count(cells, x, y) == 3,
    ensures
        next_generation(cells).contains_key((x, y)),
        next_generation(cells)[(x, y)] == cells[(x, y)] + 1,
{
}

/// A cell of age 0 is passed over by the generation: it stays and turns 1.
pub proof fn lemma_newborn_stays(cells: Cells, x: int, y: int)
    requires
        cells.contains_key((x, y)),
        cells[(x, y)] == 0,
    ensures
        next_generation(cells).contains_key((x, y)),
        next_generation(cells)[(x, y)] == 1,
{
}

/// A position that some cell proposes lies on the edge of the plane or has
/// exactly three neighbours.
pub proof fn lemma_nominated_inland(cells: Cells, x: int, y: int)
    requires
        inland(x, y),
        nominated(cells, x, y),
    ensures
        neighbor_count(cells, x, y) == 3,
{
    let (cx, cy, pos) = choose|cx: int, cy: int, pos: int| nominates(cells, cx, cy, pos, x, y);
    assert(x == cx + offset_x(pos));
    assert(y == cy + offset_y(pos));
}

/// A position on the plane with exactly three neighbours is proposed by a
/// cell next to it.
pub proof fn lemma_three_neighbors_nominate(cells: Cells, x: int, y: int)
    requires
        i64::MIN <= x <= i64::MAX,
        i64::MIN <= y <= i64::MAX,
        neighbor_count(cells, x, y) == 3,
    ensures
        nominated(cells, x, y),
{
    if mature(cells, x - 1, y + 1) {
        assert(nominates(cells, x - 1, y + 1, 7, x, y));
    } else if mature(cells, x, y + 1) {
        assert(nominates(cells, x, y + 1, 6, x, y));
    } else if mature(cells, x + 1, y + 1) {
        assert(nominates(cells, x + 1, y + 1, 5, x, y));
    } else if mature(cells, x - 1, y) {
        assert(nominates(cells, x - 1, y, 4, x, y));
    } else if mature(cells, x + 1, y) {
        assert(nominates(cells, x + 1, y, 3, x, y));
    } else if mature(cells, x - 1, y - 1) {
        assert(nominates(cells, x - 1, y - 1, 2, x, y));
    } else if mature(cells, x, y - 1) {
        assert(nominates(cells, x, y - 1, 1, x, y));
    } else {
        assert(mature(cells, x + 1, y - 1));
        assert(nominates(cells, x + 1, y - 1, 0, x, y));
    }
}

/// A cell that takes part in the rules and has fewer than two neighbours, or
/// more than three, dies. Off the edges of the plane its position is free
/// after the generation. On an edge a newborn cell may take its place, where
/// a position beyond the edge is proposed and brought back onto it.
pub proof fn lemma_death(cells: Cells, x: int, y: int)
    requires
        mature(cells, x, y),
        neighbor_count(cells, x, y) < 2 || neighbor_count(cells, x, y) > 3,
    ensures
        inland(x, y) ==> !next_generation(cells).contains_key((x, y)),
        next_generation(cells).contains_key((x, y)) <==> nominated(cells, x, y),
        next_generation(cells).contains_key((x, y)) ==> next_generation(cells)[(x, y)] == 1,
{
    if inland(x, y) && nominated(cells, x, y) {
        lemma_nominated_inland(cells, x, y);
    }
}

/// A free position on the plane with exactly three neighbours holds a cell
/// after the generation. The cell is created with age 0 and aged with all
/// the others at the end of the generation, so that it is found with age 1.
pub proof fn lemma_birth(cells: Cells, x: int, y: int)
    requires
        i64::MIN <= x <= i64::MAX,
        i64::MIN <= y <= i64::MAX,
        !cells.contains_key((x, y)),
        neighbor_count(cells, x, y) == 3,
    ensures
        next_generation(cells).contains_key((x, y)),
        next_generation(cells)[(x, y)] == 1,
{
    lemma_three_neighbors_nominate(cells, x, y);
}

/// Off the edges, a free position comes to hold a cell only where it has
/// exactly three neighbours.
pub proof fn lemma_birth_needs_three(cells: Cells, x: int, y: int)
    requires
        inland(x, y),
        !cells.contains_key((x, y)),
        next_generation(cells).contains_key((x, y)),
    ensures
        neighbor_count(cells, x, y) == 3,
{
    lemma_nominated_inland(cells, x, y);
}

/// A cell of age 0 has no part in what the generation decides for the
/// others: with it or without it the same cells die and the same are born.
/// The cell itself is found with age 1, just as if it had been born at its
/// position in this generation.
pub proof fn lemma_newborn_grace(cells: Cells, x: int, y: int)
    requires
        !cells.contains_key((x, y)),
    ensures
        forall|px: int, py: int| #[trigger]
            neighbor_count(cells.insert((x, y), 0), px, py) == neighbor_count(cells, px, py),
        forall|px: int, py: int| #[trigger]
            dies(cells.insert((x, y), 0), px, py) == dies(cells, px, py),
        forall|px: int, py: int| #[trigger]
            nominated(cells.insert((x, y), 0), px, py) == nominated(cells, px, py),
        next_generation(cells.insert((x, y), 0)) == next_generation(cells).insert((x, y), 1),
{
    let with = cells.insert((x, y), 0);
    assert forall|px: int, py: int| mature(with, px, py) == mature(cells, px, py) by {}
    assert forall|px: int, py: int| #[trigger]
        neighbor_count(with, px, py) == neighbor_count(cells, px, py) by {}
    assert forall|px: int, py: int| #[trigger] dies(with, px, py) == dies(cells, px, py) by {}
    assert forall|cx: int, cy: int, pos: int, px: int, py: int| #[trigger]
        nominates(with, cx, cy, pos, px, py) == nominates(cells, cx, cy, pos, px, py) by {}
    assert forall|px: int, py: int| #[trigger]
        nominated(with, px, py) == nominated(cells, px, py) by {
        if nominated(with, px, py) {
            let (cx, cy, pos) = choose|cx: int, cy: int, pos: int|
                nominates(with, cx, cy, pos, px, py);
            assert(nominates(cells, cx, cy, pos, px, py));
        }
        if nominated(cells, px, py) {
            let (cx, cy, pos) = choose|cx: int, cy: int, pos: int|
                nominates(cells, cx, cy, pos, px, py);
            assert(nominates(with, cx, cy, pos, px, py));
        }
    }
    assert forall|p: (int, int)| stays(with, p) == (stays(cells, p) || p == (x, y)) by {
        assert(dies(with, p.0, p.1) == dies(cells, p.0, p.1));
    }
    assert(next_generation(with) =~= next_generation(cells).insert((x, y), 1));
}

/// Nothing comes of nothing: an empty plane stays empty, for any number of
/// generations, and ageing it changes nothing. So a run that starts from no
/// cell at all ends with none.
pub proof fn lemma_empty_stays_empty(steps: nat)
    ensures
        aged(Map::<(int, int), nat>::empty()) == Map::<(int, int), nat>::empty(),
        generation_after(Map::<(int, int), nat>::empty(), steps) == Map::<(int, int), nat>::empty(),
        generation_after(first_generation(Seq::<(i64, i64)>::empty()), steps) == Map::<
            (int, int),
            nat,
        >::empty(),
    decreases steps,
{
    let nothing = Map::<(int, int), nat>::empty();
    assert(aged(nothing) =~= nothing);
    assert(first_generation(Seq::<(i64, i64)>::empty()) == nothing);
    if steps > 0 {
        lemma_empty_stays_empty((steps - 1) as nat);
        assert forall|x: int, y: int| !nominated(nothing, x, y) by {
            if nominated(nothing, x, y) {
                let (cx, cy, pos) = choose|cx: int, cy: int, pos: int|
                    nominates(nothing, cx, cy, pos, x, y);
            }
        }
        assert(next_generation(nothing) =~= nothing);
    }
}

/// A finite set with three different members has at least three members.
proof fn lemma_three_members(set: Set<(int, int)>, a: (int, int), b: (int, int), c: (int, int))
    requires
        set.finite(),
        set.contains(a),
        set.contains(b),
        set.contains(c),
        a != b,
        a != c,
        b != c,
    ensures
        set.len() >= 3,
{
    let less_a = set.remove(a);
    let less_b = less_a.remove(b);
    let less_c = less_b.remove(c);
    assert(less_a.len() == set.len() - 1);
    assert(less_b.len() == less_a.len() - 1);
    assert(less_c.len() == less_b.len() - 1);
}

/// One or two cells that take part in the rules, and nothing else on the
/// plane: after one generation the plane is empty. Each has fewer than two
/// neighbours, and no position has three.
pub proof fn lemma_extinction(cells: Cells)
    requires
        cells.dom().finite(),
        cells.dom().len() <= 2,
        forall|p: (int, int)| #[trigger] cells.contains_key(p) ==> cells[p] >= 1,
    ensures
        next_generation(cells) == Map::<(int, int), nat>::empty(),
{
    assert forall|a: (int, int), b: (int, int), c: (int, int)|
        #![trigger cells.contains_key(a), cells.contains_key(b), cells.contains_key(c)]
        cells.contains_key(a) && cells.contains_key(b) && cells.contains_key(c) && a != b && a != c
            implies b == c by {
        if b != c {
            lemma_three_members(cells.dom(), a, b, c);
        }
    }
    assert forall|x: int, y: int| neighbor_count(cells, x, y) <= 2 by {
        lemma_few_around(cells, x, y);
    }
    assert forall|x: int, y: int| mature(cells, x, y) implies dies(cells, x, y) by {
        lemma_few_around(cells, x, y);
    }
    assert forall|x: int, y: int| !nominated(cells, x, y) by {
        if nominated(cells, x, y) {
            let (cx, cy, pos) = choose|cx: int, cy: int, pos: int|
                nominates(cells, cx, cy, pos, x, y);
        }
    }
    assert(next_generation(cells) =~= Map::<(int, int), nat>::empty());
}

/// Where no three different positions are taken, no position has more than
/// two neighbours, and a taken one has at most one.
proof fn lemma_few_around(cells: Cells, x: int, y: int)
    requires
        forall|a: (int, int), b: (int, int), c: (int, int)|
            #![trigger cells.contains_key(a), cells.contains_key(b), cells.contains_key(c)]
            cells.contains_key(a) && cells.contains_key(b) && cells.contains_key(c) && a != b && a
                != c ==> b == c,
    ensures
        neighbor_count(cells, x, y) <= 2,
        cells.contains_key((x, y)) ==> neighbor_count(cells, x, y) <= 1,
{
    let around = seq![
        (x - 1, y + 1),
        (x, y + 1),
        (x + 1, y + 1),
        (x - 1, y),
        (x + 1, y),
        (x - 1, y - 1),
        (x, y - 1),
        (x + 1, y - 1),
        (x, y),
    ];
    assert forall|i: int, j: int, k: int|
        0 <= i < j < k < 9 implies !(cells.contains_key(#[trigger] around[i])
        && cells.contains_key(#[trigger] around[j]) && cells.contains_key(
        #[trigger] around[k],
    )) by {
        assert(around[i] != around[j] && around[i] != around[k] && around[j] != around[k]);
    }
    assert(around[0] == (x - 1, y + 1));
    assert(around[1] == (x, y + 1));
    assert(around[2] == (x + 1, y + 1));
    assert(around[3] == (x - 1, y));
    assert(around[4] == (x + 1, y));
    assert(around[5] == (x - 1, y - 1));
    assert(around[6] == (x, y - 1));
    assert(around[7] == (x + 1, y - 1));
    assert(around[8] == (x, y));
}

/// A square of four cells that take part in the rules, alone on the plane,
/// is the same square after a generation, each cell one older.
pub proof fn lemma_block_is_stable(cells: Cells, x: int, y: int)
    requires
        i64::MIN <= x < i64::MAX,
        i64::MIN <= y < i64::MAX,
        cells.dom() == set![(x, y), (x + 1, y), (x, y + 1), (x + 1, y + 1)],
        forall|p: (int, int)| #[trigger] cells.contains_key(p) ==> cells[p] >= 1,
    ensures
        next_generation(cells) == aged(cells),
{
    assert forall|px: int, py: int| #[trigger]
        mature(cells, px, py) == ((px == x || px == x + 1) && (py == y || py == y + 1)) by {
        assert(cells.contains_key((px, py)) == cells.dom().contains((px, py)));
    }
    assert forall|px: int, py: int| #[trigger] neighbor_count(cells, px, py) == 3 implies mature(
        cells,
        px,
        py,
    ) by {}
    assert forall|px: int, py: int| mature(cells, px, py) implies neighbor_count(cells, px, py)
        == 3 by {}
    assert forall|px: int, py: int| nominated(cells, px, py) implies cells.contains_key(
        (px, py),
    ) by {
        let (cx, cy, pos) = choose|cx: int, cy: int, pos: int|
            nominates(cells, cx, cy, pos, px, py);
        assert(mature(cells, cx + offset_x(pos), cy + offset_y(pos)));
    }
    assert forall|p: (int, int)| cells.contains_key(p) implies stays(cells, p) by {
        assert(mature(cells, p.0, p.1));
    }
    assert(next_generation(cells) =~= aged(cells));
}

/// A row of three cells that take part in the rules, alone on the plane and
/// off its edges, is a column of three after a generation: the middle cell
/// stays, one older, the ends die, and a cell is born above and below.
pub proof fn lemma_blinker_turns_upright(cells: Cells, x: int, y: int)
    requires
        inland(x, y),
        cells.dom() == set![(x - 1, y), (x, y), (x + 1, y)],
        forall|p: (int, int)| #[trigger] cells.contains_key(p) ==> cells[p] >= 1,
    ensures
        next_generation(cells) == map![
            (x, y - 1) => 1nat,
            (x, y) => cells[(x, y)] + 1,
            (x, y + 1) => 1nat,
        ],
{
    let upright = map![
        (x, y - 1) => 1nat,
        (x, y) => cells[(x, y)] + 1,
        (x, y + 1) => 1nat,
    ];
    assert forall|px: int, py: int| #[trigger]
        mature(cells, px, py) == ((px == x - 1 || px == x || px == x + 1) && py == y) by {
        assert(cells.contains_key((px, py)) == cells.dom().contains((px, py)));
    }
    assert forall|px: int, py: int| #[trigger]
        neighbor_count(cells, px, py) == 3 implies px == x && (py == y - 1 || py == y + 1) by {}
    assert(neighbor_count(cells, x, y) == 2);
    assert(neighbor_count(cells, x - 1, y) == 1);
    assert(neighbor_count(cells, x + 1, y) == 1);
    assert forall|px: int, py: int| nominated(cells, px, py) implies px == x && (py == y - 1
        || py == y + 1) by {
        let (cx, cy, pos) = choose|cx: int, cy: int, pos: int|
            nominates(cells, cx, cy, pos, px, py);
    }
    assert(nominates(cells, x, y, 1, x, y + 1));
    assert(nominates(cells, x, y, 6, x, y - 1));
    assert forall|p: (int, int)| stays(cells, p) == (p == (x, y)) by {
        if cells.contains_key(p) {
            assert(mature(cells, p.0, p.1));
        }
    }
    assert forall|p: (int, int)| #[trigger]
        next_generation(cells).contains_key(p) == upright.contains_key(p) by {
        assert(p == (p.0, p.1));
    }
    assert(next_generation(cells) =~= upright);
}

/// A column of three cells that take part in the rules, alone on the plane
/// and off its edges, is a row of three after a generation.
pub proof fn lemma_blinker_lies_down(cells: Cells, x: int, y: int)
    requires
        inland(x, y),
        cells.dom() == set![(x, y - 1), (x, y), (x, y + 1)],
        forall|p: (int, int)| #[trigger] cells.contains_key(p) ==> cells[p] >= 1,
    ensures
        next_generation(cells) == map![
            (x - 1, y) => 1nat,
            (x, y) => cells[(x, y)] + 1,
            (x + 1, y) => 1nat,
        ],
{
    let level = map![
        (x - 1, y) => 1nat,
        (x, y) => cells[(x, y)] + 1,
        (x + 1, y) => 1nat,
    ];
    assert forall|px: int, py: int| #[trigger]
        mature(cells, px, py) == (px == x && (py == y - 1 || py == y || py == y + 1)) by {
        assert(cells.contains_key((px, py)) == cells.dom().contains((px, py)));
    }
    assert forall|px: int, py: int| #[trigger]
        neighbor_count(cells, px, py) == 3 implies py == y && (px == x - 1 || px == x + 1) by {}
    assert(neighbor_count(cells, x, y) == 2);
    assert(neighbor_count(cells, x, y - 1) == 1);
    assert(neighbor_count(cells, x, y + 1) == 1);
    assert forall|px: int, py: int| nominated(cells, px, py) implies py == y && (px == x - 1
        || px == x + 1) by {
        let (cx, cy, pos) = choose|cx: int, cy: int, pos: int|
            nominates(cells, cx, cy, pos, px, py);
    }
    assert(nominates(cells, x, y, 3, x - 1, y));
    assert(nominates(cells, x, y, 4, x + 1, y));
    assert forall|p: (int, int)| stays(cells, p) == (p == (x, y)) by {
        if cells.contains_key(p) {
            assert(mature(cells, p.0, p.1));
        }
    }
    assert forall|p: (int, int)| #[trigger]
        next_generation(cells).contains_key(p) == level.contains_key(p) by {
        assert(p == (p.0, p.1));
    }
    assert(next_generation(cells) =~= level);
}

/// A row of three cells, alone on the plane and off its edges, is back in
/// its place after two generations.
pub proof fn lemma_blinker_returns(cells: Cells, x: int, y: int)
    requires
        inland(x, y),
        cells.dom() == set![(x - 1, y), (x, y), (x + 1, y)],
        forall|p: (int, int)| #[trigger] cells.contains_key(p) ==> cells[p] >= 1,
    ensures
        generation_after(cells, 2).dom() == cells.dom(),
{
    let upright = next_generation(cells);
    lemma_blinker_turns_upright(cells, x, y);
    assert(upright.dom() =~= set![(x, y - 1), (x, y), (x, y + 1)]);
    lemma_blinker_lies_down(upright, x, y);
    assert(next_generation(upright).dom() =~= cells.dom());
    assert(generation_after(cells, 2) == next_generation(generation_after(cells, 1)));
    assert(generation_after(cells, 1) == next_generation(generation_after(cells, 0)));
}

} // verus!
