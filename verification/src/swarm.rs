//! The swarm: how many agents there are, which cells each steering rule acts
//! on, and when cached measurements are renewed.

use crate::grid::{
    clamp_axis, lemma_index_decomposes, lemma_index_in_range, Cell, Grid, GridShape,
};
use crate::partition::{
    contents, count_in, group_by_position, lemma_members_count, lemma_occurrences_in_none,
    lemma_occurrences_in_one, members, occurrences, partition,
};
use vstd::arithmetic::div_mod::{
    lemma_fundamental_div_mod, lemma_fundamental_div_mod_converse, lemma_mod_bound,
    lemma_small_mod,
};
use vstd::prelude::*;

verus! {

/// The number of frames after which cached measurements are renewed, unless
/// the swarm is told otherwise.
pub const DEFAULT_REFRESH_INTERVAL: u32 = 60;

/// The steering rules that act on groups of agents sharing a cell.
#[derive(Clone, Copy, Debug, PartialEq, Eq)]
pub enum Rule {
    /// Steer toward the mean heading of the group.
    Alignment,
    /// Steer toward the centre of the group.
    Cohesion,
    /// Steer away from the other members of the group.
    Separation,
}

impl Rule {
    /// Whether the rule acts on a cell that holds `size` agents. Cohesion
    /// takes a cell that just reaches the threshold; alignment and separation
    /// need one agent more.
    pub open spec fn steers(self, size: nat, min_group_size: nat) -> bool {
        match self {
            Rule::Cohesion => size >= min_group_size,
            Rule::Alignment | Rule::Separation => size > min_group_size,
        }
    }

    /// Whether the rule acts on a cell that holds `size` agents.
    pub fn admits(self, size: usize, min_group_size: usize) -> (admitted: bool)
        ensures
            admitted == self.steers(size as nat, min_group_size as nat),
    {
        match self {
            Rule::Cohesion => size >= min_group_size,
            Rule::Alignment | Rule::Separation => size > min_group_size,
        }
    }
}

/// The groups that a rule acts on: those of `groups` that are crowded enough
/// as they are, the others emptied.
pub open spec fn steered(rule: Rule, min_group_size: nat, groups: Seq<Seq<usize>>) -> Seq<
    Seq<usize>,
> {
    Seq::new(
        groups.len(),
        |g: int|
            if rule.steers(groups[g].len(), min_group_size) {
                groups[g]
            } else {
                Seq::empty()
            },
    )
}

/// The two colours of a chessboard.
#[derive(Clone, Copy, Debug, PartialEq, Eq)]
pub enum Tint {
    Red,
    Blue,
}

/// The colour of the cell with linear index `index` when the grid is painted
/// as a chessboard: red where line and column add up to an even number.
/// Layers follow one another without a break, so the line of a cell counts
/// the rows of the layers before it too.
pub open spec fn tint_of(shape: GridShape, index: int) -> Tint {
    if (index / shape.cols + index % shape.cols) % 2 == 0 {
        Tint::Red
    } else {
        Tint::Blue
    }
}

/// A swarm as mathematical values.
pub struct SwarmView {
    /// The number of agents.
    pub boid_count: nat,
    /// The threshold that a cell's population is held against.
    pub min_group_size: nat,
    /// The number of frames between two renewals of cached measurements.
    pub refresh_interval: nat,
    /// The number of frames since the last renewal.
    pub frame_counter: nat,
}

impl SwarmView {
    /// The frame counter starts over when it reaches the interval.
    pub open spec fn wf(self) -> bool {
        self.frame_counter < self.refresh_interval
    }

    /// Whether the coming frame is one in which cached measurements are
    /// renewed.
    pub open spec fn refresh_due(self) -> bool {
        self.frame_counter + 1 == self.refresh_interval
    }

    /// The swarm one frame later.
    pub open spec fn after_update(self) -> SwarmView {
        SwarmView {
            frame_counter: if self.refresh_due() {
                0
            } else {
                self.frame_counter + 1
            },
            ..self
        }
    }

    /// The swarm `frames` frames later.
    pub open spec fn after_updates(self, frames: nat) -> SwarmView
        decreases frames,
    {
        if frames == 0 {
            self
        } else {
            self.after_updates((frames - 1) as nat).after_update()
        }
    }
}

/// A fixed population of agents and the settings that its steering rules
/// share.
#[derive(Clone, Copy, Debug)]
pub struct Swarm {
    boid_count: usize,
    min_group_size: usize,
    refresh_interval: u32,
    frame_counter: u32,
}

impl View for Swarm {
    type V = SwarmView;

    closed spec fn view(&self) -> SwarmView {
        SwarmView {
            boid_count: self.boid_count as nat,
            min_group_size: self.min_group_size as nat,
            refresh_interval: self.refresh_interval as nat,
            frame_counter: self.frame_counter as nat,
        }
    }
}

/// What the three group rules act on in one frame. The rules are carried out
/// in the order of the fields, each on the velocities that the one before it
/// left.
#[derive(Debug, PartialEq, Eq)]
pub struct BehaviorPlan {
    pub alignment: Vec<Vec<usize>>,
    pub cohesion: Vec<Vec<usize>>,
    pub separation: Vec<Vec<usize>>,
}

impl Swarm {
    #[verifier::type_invariant]
    spec fn inv(&self) -> bool {
        self@.wf()
    }

    /// A swarm of `num_boids` agents; none if the number is negative.
    pub fn new(num_boids: i32, min_group_size: usize) -> (swarm: Swarm)
        ensures
            swarm@ == (SwarmView {
                boid_count: if num_boids > 0 {
                    num_boids as nat
                } else {
                    0
                },
                min_group_size: min_group_size as nat,
                refresh_interval: DEFAULT_REFRESH_INTERVAL as nat,
                frame_counter: 0,
            }),
            swarm@.wf(),
    {
        let boid_count: usize = if num_boids > 0 {
            num_boids as usize
        } else {
            0
        };
        Swarm {
            boid_count,
            min_group_size,
            refresh_interval: DEFAULT_REFRESH_INTERVAL,
            frame_counter: 0,
        }
    }

    /// Counts one frame, and says whether cached measurements are due for
    /// renewal in it: in every `refresh_interval`-th frame. The counter starts
    /// over in that frame.
    pub fn update(&mut self) -> (refresh: bool)
        ensures
            refresh == old(self)@.refresh_due(),
            final(self)@ == old(self)@.after_update(),
            final(self)@.wf(),
    {
        proof {
            use_type_invariant(&*self);
        }
        let next = self.frame_counter + 1;
        if next == self.refresh_interval {
            self.frame_counter = 0;
            true
        } else {
            self.frame_counter = next;
            false
        }
    }

    /// The groups that `rule` acts on, cell by cell.
    pub fn steered_groups(&self, rule: Rule, grid: &Grid, cells: &Vec<Cell>) -> (plan: Vec<
        Vec<usize>,
    >)
        ensures
            plan@.len() == grid@.cell_count(),
            contents(plan@) == steered(rule, self@.min_group_size, partition(grid@, cells@)),
    {
        let mut groups = group_by_position(grid, cells);
        let ghost all = contents(groups@);
        let mut g: usize = 0;
        while g < groups.len()
            invariant
                g <= groups@.len(),
                groups@.len() == all.len(),
                forall|k: int| g <= k < groups@.len() ==> (#[trigger] groups@[k])@ == all[k],
                forall|k: int|
                    0 <= k < g ==> (#[trigger] groups@[k])@ == steered(
                        rule,
                        self@.min_group_size,
                        all,
                    )[k],
            decreases groups@.len() - g,
        {
            if !rule.admits(groups[g].len(), self.min_group_size) {
                groups[g].clear();
            }
            g += 1;
        }
        proof {
            assert(contents(groups@) =~= steered(rule, self@.min_group_size, all));
        }
        groups
    }

    /// The groups whose members turn toward their common heading: the cells
    /// that hold more than `min_group_size` agents.
    pub fn alignment(&self, grid: &Grid, cells: &Vec<Cell>) -> (plan: Vec<Vec<usize>>)
        ensures
            plan@.len() == grid@.cell_count(),
            contents(plan@) == steered(
                Rule::Alignment,
                self@.min_group_size,
                partition(grid@, cells@),
            ),
    {
        self.steered_groups(Rule::Alignment, grid, cells)
    }

    /// The groups whose members turn toward their common centre: the cells
    /// that hold at least `min_group_size` agents.
    pub fn cohesion(&self, grid: &Grid, cells: &Vec<Cell>) -> (plan: Vec<Vec<usize>>)
        ensures
            plan@.len() == grid@.cell_count(),
            contents(plan@) == steered(
                Rule::Cohesion,
                self@.min_group_size,
                partition(grid@, cells@),
            ),
    {
        self.steered_groups(Rule::Cohesion, grid, cells)
    }

    /// The groups whose members turn away from one another: the cells that
    /// hold more than `min_group_size` agents.
    pub fn separation(&self, grid: &Grid, cells: &Vec<Cell>) -> (plan: Vec<Vec<usize>>)
        ensures
            plan@.len() == grid@.cell_count(),
            contents(plan@) == steered(
                Rule::Separation,
                self@.min_group_size,
                partition(grid@, cells@),
            ),
    {
        self.steered_groups(Rule::Separation, grid, cells)
    }

    /// What the three group rules act on in one frame. Each rule has a grid of
    /// its own, and the coordinates of every agent on that grid. Steering
    /// turns agents and does not move them, so the three groupings hold for
    /// the whole frame.
    pub fn update_behaviors(
        &self,
        alignment: (&Grid, &Vec<Cell>),
        cohesion: (&Grid, &Vec<Cell>),
        separation: (&Grid, &Vec<Cell>),
    ) -> (plan: BehaviorPlan)
        ensures
            plan.alignment@.len() == alignment.0@.cell_count(),
            contents(plan.alignment@) == steered(
                Rule::Alignment,
                self@.min_group_size,
                partition(alignment.0@, alignment.1@),
            ),
            plan.cohesion@.len() == cohesion.0@.cell_count(),
            contents(plan.cohesion@) == steered(
                Rule::Cohesion,
                self@.min_group_size,
                partition(cohesion.0@, cohesion.1@),
            ),
            plan.separation@.len() == separation.0@.cell_count(),
            contents(plan.separation@) == steered(
                Rule::Separation,
                self@.min_group_size,
                partition(separation.0@, separation.1@),
            ),
    {
        BehaviorPlan {
            alignment: self.alignment(alignment.0, alignment.1),
            cohesion: self.cohesion(cohesion.0, cohesion.1),
            separation: self.separation(separation.0, separation.1),
        }
    }

    /// The chessboard colour of every agent's cell, agent by agent.
    pub fn color_by_position(&self, grid: &Grid, cells: &Vec<Cell>) -> (tints: Vec<Tint>)
        ensures
            tints@.len() == cells@.len(),
            forall|i: int|
                0 <= i < cells@.len() ==> #[trigger] tints@[i] == tint_of(
                    grid@,
                    grid@.index_of(cells@[i]),
                ),
    {
        let cols = grid.cols() as usize;
        let mut tints: Vec<Tint> = Vec::new();
        let mut i: usize = 0;
        while i < cells.len()
            invariant
                i <= cells@.len(),
                grid@.wf(),
                cols == grid@.cols,
                tints@.len() == i,
                forall|k: int|
                    0 <= k < i ==> #[trigger] tints@[k] == tint_of(
                        grid@,
                        grid@.index_of(cells@[k]),
                    ),
            decreases cells@.len() - i,
        {
            let index = grid.index_of(cells[i]);
            proof {
                lemma_index_in_range(grid@, cells@[i as int]);
                lemma_index_decomposes(grid@, cells@[i as int]);
            }
            let line = index / cols;
            let col = index % cols;
            let tint = if (line + col) % 2 == 0 {
                Tint::Red
            } else {
                Tint::Blue
            };
            tints.push(tint);
            i += 1;
        }
        tints
    }

    /// The number of agents.
    pub fn boid_count(&self) -> (count: usize)
        ensures
            count == self@.boid_count,
    {
        self.boid_count
    }

    /// The threshold that a cell's population is held against.
    pub fn min_group_size(&self) -> (size: usize)
        ensures
            size == self@.min_group_size,
    {
        self.min_group_size
    }

    /// The number of frames between two renewals of cached measurements.
    pub fn refresh_interval(&self) -> (interval: u32)
        ensures
            interval == self@.refresh_interval,
            self@.wf(),
    {
        proof {
            use_type_invariant(self);
        }
        self.refresh_interval
    }

    /// The number of frames since the last renewal.
    pub fn frame_counter(&self) -> (frames: u32)
        ensures
            frames == self@.frame_counter,
            self@.wf(),
    {
        proof {
            use_type_invariant(self);
        }
        self.frame_counter
    }

    /// The same swarm with cached measurements renewed every `interval`
    /// frames, counting from now.
    pub fn with_refresh_interval(self, interval: u32) -> (swarm: Swarm)
        requires
            interval >= 1,
        ensures
            swarm@ == (SwarmView {
                refresh_interval: interval as nat,
                frame_counter: 0,
                ..self@
            }),
            swarm@.wf(),
    {
        Swarm {
            boid_count: self.boid_count,
            min_group_size: self.min_group_size,
            refresh_interval: interval,
            frame_counter: 0,
        }
    }
}

/// Renewal comes round every `refresh_interval` frames. After any number of
/// frames the counter is the number of frames since the last renewal, the
/// frame that brings it back to zero is the one that asks for renewal, and
/// nothing else about the swarm has changed.
pub proof fn lemma_refresh_cadence(view: SwarmView, frames: nat)
    requires
        view.wf(),
    ensures
        view.after_updates(frames) == (SwarmView {
            frame_counter: (((view.frame_counter + frames) as int) % (
            view.refresh_interval as int)) as nat,
            ..view
        }),
        view.after_updates(frames).wf(),
        view.after_updates(frames).refresh_due() <==> ((view.frame_counter + frames + 1) as int)
            % (view.refresh_interval as int) == 0,
    decreases frames,
{
    let interval = view.refresh_interval as int;
    let total = (view.frame_counter + frames) as int;
    if frames == 0 {
        lemma_small_mod(view.frame_counter, view.refresh_interval);
    } else {
        lemma_refresh_cadence(view, (frames - 1) as nat);
        lemma_mod_successor(total - 1, interval);
    }
    lemma_mod_successor(total, interval);
}

/// The remainder of the successor is the successor of the remainder, or zero
/// where that reaches the divisor.
proof fn lemma_mod_successor(x: int, m: int)
    requires
        m > 0,
    ensures
        (x + 1) % m == if x % m + 1 == m {
            0
        } else {
            x % m + 1
        },
{
    lemma_fundamental_div_mod(x, m);
    lemma_mod_bound(x, m);
    let quotient = x / m;
    assert(m * quotient == quotient * m) by (nonlinear_arith);
    assert((quotient + 1) * m == quotient * m + m) by (nonlinear_arith);
    if x % m + 1 == m {
        lemma_fundamental_div_mod_converse(x + 1, m, quotient + 1, 0);
    } else {
        lemma_fundamental_div_mod_converse(x + 1, m, quotient, x % m + 1);
    }
}

/// A cell that holds exactly `min_group_size` agents is passed over by
/// alignment and by separation, and steered by cohesion.
pub proof fn lemma_threshold_asymmetry(min_group_size: nat, groups: Seq<Seq<usize>>, g: int)
    requires
        0 <= g < groups.len(),
        groups[g].len() == min_group_size,
    ensures
        steered(Rule::Alignment, min_group_size, groups)[g] == Seq::<usize>::empty(),
        steered(Rule::Separation, min_group_size, groups)[g] == Seq::<usize>::empty(),
        steered(Rule::Cohesion, min_group_size, groups)[g] == groups[g],
{
}

/// The rules part ways at the threshold only. Alignment and separation act on
/// the same cells; cohesion acts on those and on the cells that hold exactly
/// `min_group_size` agents.
pub proof fn lemma_rules_agree_off_threshold(
    min_group_size: nat,
    groups: Seq<Seq<usize>>,
    g: int,
)
    requires
        0 <= g < groups.len(),
    ensures
        steered(Rule::Alignment, min_group_size, groups) == steered(
            Rule::Separation,
            min_group_size,
            groups,
        ),
        groups[g].len() != min_group_size ==> steered(Rule::Cohesion, min_group_size, groups)[g]
            == steered(Rule::Alignment, min_group_size, groups)[g],
{
    assert(steered(Rule::Alignment, min_group_size, groups) =~= steered(
        Rule::Separation,
        min_group_size,
        groups,
    ));
}

/// An agent is listed once in what a rule acts on if the cell it stands in is
/// crowded enough for the rule, and not at all otherwise: no rule touches an
/// agent of a sparse cell, and none takes an agent twice.
pub proof fn lemma_steered_occurrences(
    rule: Rule,
    min_group_size: nat,
    shape: GridShape,
    cells: Seq<Cell>,
    i: usize,
)
    requires
        shape.wf(),
        cells.len() <= usize::MAX,
    ensures
        occurrences(steered(rule, min_group_size, partition(shape, cells)), i) == if i
            < cells.len() && rule.steers(
            members(shape, cells, shape.index_of(cells[i as int])).len(),
            min_group_size,
        ) {
            1nat
        } else {
            0nat
        },
{
    let plan = steered(rule, min_group_size, partition(shape, cells));
    assert forall|g: int| 0 <= g < plan.len() implies count_in(#[trigger] plan[g], i) == if i
        < cells.len() && shape.index_of(cells[i as int]) == g && rule.steers(
        members(shape, cells, g).len(),
        min_group_size,
    ) {
        1nat
    } else {
        0nat
    } by {
        lemma_members_count(shape, cells, g, i);
    }
    if i < cells.len() {
        lemma_index_in_range(shape, cells[i as int]);
        lemma_occurrences_in_one(plan, i, shape.index_of(cells[i as int]));
    } else {
        lemma_occurrences_in_none(plan, i);
    }
}

/// Painted as a chessboard, a cell is red exactly if its line and its
/// column, both clamped onto the grid, add up to an even number.
pub proof fn lemma_tint_chessboard(shape: GridShape, cell: Cell)
    requires
        shape.wf(),
    ensures
        tint_of(shape, shape.index_of(cell)) == Tint::Red <==> (clamp_axis(
            cell.layer as int,
            shape.depth,
        ) * shape.rows + clamp_axis(cell.row as int, shape.rows) + clamp_axis(
            cell.col as int,
            shape.cols,
        )) % 2 == 0,
{
    lemma_index_decomposes(shape, cell);
}

} // verus!
