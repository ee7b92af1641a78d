//! Grouping agents by the cell they stand in.

use crate::grid::{Cell, Grid, GridShape, lemma_index_in_range};
use vstd::prelude::*;

verus! {

/// The agents that stand in cell `g`, in index order. Agent `i` is the one
/// whose coordinates are `cells[i]`.
pub open spec fn members(shape: GridShape, cells: Seq<Cell>, g: int) -> Seq<usize>
    decreases cells.len(),
{
    if cells.len() == 0 {
        Seq::empty()
    } else {
        let earlier = members(shape, cells.drop_last(), g);
        if shape.index_of(cells.last()) == g {
            earlier.push((cells.len() - 1) as usize)
        } else {
            earlier
        }
    }
}

/// The members of every cell, by linear index of the cell.
pub open spec fn partition(shape: GridShape, cells: Seq<Cell>) -> Seq<Seq<usize>> {
    Seq::new(shape.cell_count() as nat, |g: int| members(shape, cells, g))
}

/// What a vector of groups holds.
pub open spec fn contents(groups: Seq<Vec<usize>>) -> Seq<Seq<usize>> {
    Seq::new(groups.len(), |g: int| groups[g]@)
}

/// The number of entries in all groups together.
pub open spec fn total_len(groups: Seq<Seq<usize>>) -> nat
    decreases groups.len(),
{
    if groups.len() == 0 {
        0
    } else {
        total_len(groups.drop_last()) + groups.last().len()
    }
}

/// How often agent `i` is listed in `group`.
pub open spec fn count_in(group: Seq<usize>, i: usize) -> nat
    decreases group.len(),
{
    if group.len() == 0 {
        0
    } else {
        count_in(group.drop_last(), i) + if group.last() == i {
            1nat
        } else {
            0nat
        }
    }
}

/// How often agent `i` is listed in all groups together.
pub open spec fn occurrences(groups: Seq<Seq<usize>>, i: usize) -> nat
    decreases groups.len(),
{
    if groups.len() == 0 {
        0
    } else {
        occurrences(groups.drop_last(), i) + count_in(groups.last(), i)
    }
}

/// `groups` is a partition of the agents `0 .. n`: each agent is listed once,
/// in one group, and nothing else is listed.
pub open spec fn is_partition_of(groups: Seq<Seq<usize>>, n: nat) -> bool {
    &&& total_len(groups) == n
    &&& forall|i: usize| i < n ==> #[trigger] occurrences(groups, i) == 1
    &&& forall|i: usize| i >= n ==> #[trigger] occurrences(groups, i) == 0
}

/// Sorts the agents into the cells of `grid`. Agent `i` stands at `cells[i]`.
/// The result has one group per cell, by linear index; each group lists its
/// agents in index order.
pub fn group_by_position(grid: &Grid, cells: &Vec<Cell>) -> (groups: Vec<Vec<usize>>)
    ensures
        groups@.len() == grid@.cell_count(),
        contents(groups@) == partition(grid@, cells@),
        is_partition_of(contents(groups@), cells@.len()),
{
    let count = grid.cell_count();
    let mut groups: Vec<Vec<usize>> = Vec::new();
    let mut g: usize = 0;
    while g < count
        invariant
            g <= count,
            groups@.len() == g,
            forall|k: int| 0 <= k < g ==> (#[trigger] groups@[k])@ == Seq::<usize>::empty(),
        decreases count - g,
    {
        groups.push(Vec::new());
        g += 1;
    }
    let mut i: usize = 0;
    while i < cells.len()
        invariant
            i <= cells@.len(),
            grid@.wf(),
            groups@.len() == grid@.cell_count(),
            forall|k: int|
                0 <= k < groups@.len() ==> (#[trigger] groups@[k])@ == members(
                    grid@,
                    cells@.take(i as int),
                    k,
                ),
        decreases cells@.len() - i,
    {
        let index = grid.index_of(cells[i]);
        let ghost before = groups@;
        groups[index].push(i);
        proof {
            let next = cells@.take(i + 1);
            assert(next.drop_last() == cells@.take(i as int));
            assert(next.last() == cells@[i as int]);
            assert forall|k: int| 0 <= k < groups@.len() implies (#[trigger] groups@[k])@
                == members(grid@, next, k) by {
                assert(before[k]@ == members(grid@, cells@.take(i as int), k));
            }
        }
        i += 1;
    }
    proof {
        assert(cells@.take(cells@.len() as int) == cells@);
        assert(contents(groups@) =~= partition(grid@, cells@));
        lemma_partition_complete(grid@, cells@);
    }
    groups
}

/// An agent is listed in the group of a cell once if it stands there, and not
/// at all if it stands elsewhere or is no agent.
pub proof fn lemma_members_count(shape: GridShape, cells: Seq<Cell>, g: int, i: usize)
    requires
        cells.len() <= usize::MAX,
    ensures
        count_in(members(shape, cells, g), i) == if i < cells.len() && shape.index_of(
            cells[i as int],
        ) == g {
            1nat
        } else {
            0nat
        },
    decreases cells.len(),
{
    if cells.len() > 0 {
        let earlier = cells.drop_last();
        lemma_members_count(shape, earlier, g, i);
        if shape.index_of(cells.last()) == g {
            let listed = members(shape, earlier, g).push((cells.len() - 1) as usize);
            assert(listed.drop_last() == members(shape, earlier, g));
        }
    }
}

/// Every agent that a group lists stands in the cell of that group.
pub proof fn lemma_members_stand_in_cell(shape: GridShape, cells: Seq<Cell>, g: int, k: int)
    requires
        cells.len() <= usize::MAX,
        0 <= k < members(shape, cells, g).len(),
    ensures
        members(shape, cells, g)[k] < cells.len(),
        shape.index_of(cells[members(shape, cells, g)[k] as int]) == g,
    decreases cells.len(),
{
    let earlier = members(shape, cells.drop_last(), g);
    if k < earlier.len() {
        lemma_members_stand_in_cell(shape, cells.drop_last(), g, k);
        assert(members(shape, cells, g)[k] == earlier[k]);
    }
}

/// A group lists its agents in index order, each below the number of agents.
pub proof fn lemma_members_increasing(shape: GridShape, cells: Seq<Cell>, g: int)
    requires
        cells.len() <= usize::MAX,
    ensures
        forall|k: int|
            0 <= k < members(shape, cells, g).len() ==> #[trigger] members(shape, cells, g)[k]
                < cells.len(),
        forall|j: int, k: int|
            0 <= j < k < members(shape, cells, g).len() ==> #[trigger] members(shape, cells, g)[j]
                < #[trigger] members(shape, cells, g)[k],
    decreases cells.len(),
{
    if cells.len() > 0 {
        lemma_members_increasing(shape, cells.drop_last(), g);
        let earlier = members(shape, cells.drop_last(), g);
        let group = members(shape, cells, g);
        assert forall|k: int| 0 <= k < group.len() implies #[trigger] group[k] < cells.len() by {
            if k < earlier.len() {
                assert(group[k] == earlier[k]);
            }
        }
        assert forall|j: int, k: int| 0 <= j < k < group.len() implies #[trigger] group[j]
            < #[trigger] group[k] by {
            assert(group[j] == earlier[j]);
            if k < earlier.len() {
                assert(group[k] == earlier[k]);
            }
        }
    }
}

/// The groups of the first `m` cells.
spec fn leading_groups(shape: GridShape, cells: Seq<Cell>, m: nat) -> Seq<Seq<usize>> {
    Seq::new(m, |g: int| members(shape, cells, g))
}

/// An agent that only one group lists is listed in all groups together as
/// often as in that one.
pub proof fn lemma_occurrences_in_one(groups: Seq<Seq<usize>>, i: usize, home: int)
    requires
        0 <= home < groups.len(),
        forall|g: int| 0 <= g < groups.len() && g != home ==> count_in(#[trigger] groups[g], i) == 0,
    ensures
        occurrences(groups, i) == count_in(groups[home], i),
    decreases groups.len(),
{
    let shorter = groups.drop_last();
    assert forall|g: int| 0 <= g < shorter.len() implies count_in(#[trigger] shorter[g], i) == 0
        || g == home by {
        assert(shorter[g] == groups[g]);
    }
    if home == groups.len() - 1 {
        lemma_occurrences_in_none(shorter, i);
    } else {
        assert(shorter[home] == groups[home]);
        assert(count_in(groups[groups.len() - 1], i) == 0);
        lemma_occurrences_in_one(shorter, i, home);
    }
}

/// An agent that no group lists is not listed in all groups together.
pub proof fn lemma_occurrences_in_none(groups: Seq<Seq<usize>>, i: usize)
    requires
        forall|g: int| 0 <= g < groups.len() ==> count_in(#[trigger] groups[g], i) == 0,
    ensures
        occurrences(groups, i) == 0,
    decreases groups.len(),
{
    if groups.len() > 0 {
        let shorter = groups.drop_last();
        assert forall|g: int| 0 <= g < shorter.len() implies count_in(#[trigger] shorter[g], i)
            == 0 by {
            assert(shorter[g] == groups[g]);
        }
        lemma_occurrences_in_none(shorter, i);
        assert(count_in(groups[groups.len() - 1], i) == 0);
    }
}

/// One more agent makes the first `m` groups one entry longer if it stands in
/// one of them, and leaves them as long as they were otherwise.
proof fn lemma_leading_total_step(shape: GridShape, cells: Seq<Cell>, m: nat)
    requires
        cells.len() > 0,
    ensures
        total_len(leading_groups(shape, cells, m)) == total_len(
            leading_groups(shape, cells.drop_last(), m),
        ) + if 0 <= shape.index_of(cells.last()) < m {
            1nat
        } else {
            0nat
        },
    decreases m,
{
    if m > 0 {
        let shorter = (m - 1) as nat;
        lemma_leading_total_step(shape, cells, shorter);
        assert(leading_groups(shape, cells, m).drop_last() == leading_groups(
            shape,
            cells,
            shorter,
        ));
        assert(leading_groups(shape, cells.drop_last(), m).drop_last() == leading_groups(
            shape,
            cells.drop_last(),
            shorter,
        ));
    }
}

/// With no agents, the first `m` groups are empty.
proof fn lemma_leading_total_empty(shape: GridShape, m: nat)
    ensures
        total_len(leading_groups(shape, Seq::<Cell>::empty(), m)) == 0,
    decreases m,
{
    if m > 0 {
        let shorter = (m - 1) as nat;
        lemma_leading_total_empty(shape, shorter);
        assert(leading_groups(shape, Seq::<Cell>::empty(), m).drop_last() == leading_groups(
            shape,
            Seq::<Cell>::empty(),
            shorter,
        ));
    }
}

/// All groups together hold as many entries as there are agents.
pub proof fn lemma_partition_total(shape: GridShape, cells: Seq<Cell>)
    requires
        shape.wf(),
    ensures
        total_len(partition(shape, cells)) == cells.len(),
    decreases cells.len(),
{
    let count = shape.cell_count() as nat;
    assert(partition(shape, cells) == leading_groups(shape, cells, count));
    if cells.len() == 0 {
        assert(cells == Seq::<Cell>::empty());
        lemma_leading_total_empty(shape, count);
    } else {
        lemma_partition_total(shape, cells.drop_last());
        assert(partition(shape, cells.drop_last()) == leading_groups(
            shape,
            cells.drop_last(),
            count,
        ));
        lemma_leading_total_step(shape, cells, count);
        lemma_index_in_range(shape, cells.last());
    }
}

/// Grouping by position is a partition. Whatever the number of agents and the
/// resolution of the grid, the sizes of the groups add up to the number of
/// agents, and every agent is listed once, in the group of the cell it stands
/// in, and in no other.
pub proof fn lemma_partition_complete(shape: GridShape, cells: Seq<Cell>)
    requires
        shape.wf(),
        cells.len() <= usize::MAX,
    ensures
        partition(shape, cells).len() == shape.cell_count(),
        is_partition_of(partition(shape, cells), cells.len()),
        forall|i: usize, g: int|
            0 <= g < shape.cell_count() ==> #[trigger] count_in(partition(shape, cells)[g], i)
                == if i < cells.len() && shape.index_of(cells[i as int]) == g {
                1nat
            } else {
                0nat
            },
{
    lemma_partition_total(shape, cells);
    assert forall|i: usize, g: int| 0 <= g < shape.cell_count() implies #[trigger] count_in(
        partition(shape, cells)[g],
        i,
    ) == if i < cells.len() && shape.index_of(cells[i as int]) == g {
        1nat
    } else {
        0nat
    } by {
        lemma_members_count(shape, cells, g, i);
    }
    assert forall|i: usize| #[trigger]
        occurrences(partition(shape, cells), i) == if i < cells.len() {
            1nat
        } else {
            0nat
        } by {
        if i < cells.len() {
            lemma_index_in_range(shape, cells[i as int]);
            lemma_occurrences_in_one(partition(shape, cells), i, shape.index_of(cells[i as int]));
        } else {
            lemma_occurrences_in_none(partition(shape, cells), i);
        }
    }
}

} // verus!
