use vstd::prelude::*;
use crate::geometry::{Point, UNIT, COORD_LIMIT, clip, clip_coord, div_toward_zero, div_toward_zero_exec};
use crate::cell::{Cell, RADIUS_LIMIT, dist2};
use crate::collision::{all_wf, passes, pass, collision_pass, side_ok};

verus! {

/// Radius of every spawned cell: five pixels.
pub const DEFAULT_RADIUS: i64 = 5 * UNIT;

/// The flow-field display buffer is replaced on every tick that is a multiple of this.
pub const FIELD_PERIOD: usize = 10;

/// The simulation engine: the cells, the arena, the focus and the field display buffer.
pub struct Habitat {
    /// Centre of the camera view.
    pub camera_target: Point,
    /// The cell the camera follows.
    pub focused_cell_idx: Option<usize>,
    /// A pick request, resolved against the cells at the next update.
    focused_pos: Option<Point>,
    /// Arena size in pixels.
    habitat_size: (u32, u32),
    pub cells: Vec<Cell>,
    /// The last field snapshot taken for display.
    flow_field_buffer: Vec<Point>,
    pub draw_flow_field_bool: bool,
    pub scale_collision_force: bool,
}

/// What a `Habitat` holds, as mathematical values.
pub struct HabitatView {
    pub camera_target: Point,
    pub focused_cell_idx: Option<usize>,
    pub pending_pick: Option<Point>,
    /// Arena size in pixels, fixed when the habitat is made.
    pub size: (u32, u32),
    pub cells: Seq<Cell>,
    pub field_buffer: Seq<Point>,
    pub draw_flow_field_bool: bool,
    pub scale_collision_force: bool,
}

impl View for Habitat {
    type V = HabitatView;

    closed spec fn view(&self) -> HabitatView {
        HabitatView {
            camera_target: self.camera_target,
            focused_cell_idx: self.focused_cell_idx,
            pending_pick: self.focused_pos,
            size: self.habitat_size,
            cells: self.cells@,
            field_buffer: self.flow_field_buffer@,
            draw_flow_field_bool: self.draw_flow_field_bool,
            scale_collision_force: self.scale_collision_force,
        }
    }
}

/// The point `p` lies strictly within the cell's radius of its centre.
pub open spec fn hits(c: Cell, p: Point) -> bool {
    dist2(c.pos, p) < c.size * c.size
}

/// Index of the first cell at or after `k` that `p` hits.
pub open spec fn pick_from(cells: Seq<Cell>, p: Point, k: int) -> Option<usize>
    decreases cells.len() - k,
{
    if k < 0 || k >= cells.len() {
        None
    } else if hits(cells[k], p) {
        Some(k as usize)
    } else {
        pick_from(cells, p, k + 1)
    }
}

/// A pick from `k` on lands on a cell at or after `k` that `p` hits, with no
/// earlier such cell from `k` on; it lands nowhere only if no cell from `k` on is hit.
pub proof fn lemma_pick_from(cells: Seq<Cell>, p: Point, k: int)
    requires
        0 <= k <= cells.len(),
        cells.len() <= usize::MAX,
    ensures
        match pick_from(cells, p, k) {
            Some(i) => k <= i < cells.len() && hits(cells[i as int], p) && forall|j: int|
                k <= j < i ==> !hits(#[trigger] cells[j], p),
            None => forall|j: int| k <= j < cells.len() ==> !hits(#[trigger] cells[j], p),
        },
    decreases cells.len() - k,
{
    if k < cells.len() && !hits(cells[k], p) {
        lemma_pick_from(cells, p, k + 1);
    }
}

/// The cell a pick at `p` selects: the first one in the collection that it hits.
pub open spec fn pick(cells: Seq<Cell>, p: Point) -> Option<usize> {
    pick_from(cells, p, 0)
}

/// Smoothed velocity component: nine tenths of the old one plus the flow push.
pub open spec fn drift(v: int, f: int) -> int {
    clip(div_toward_zero(9 * v, 10) + f)
}

/// A cell after velocity and position integration under flow push `f`.
pub open spec fn integrate_cell(c: Cell, f: Point) -> Cell {
    let vx = drift(c.vel.x as int, f.x as int);
    let vy = drift(c.vel.y as int, f.y as int);
    Cell {
        pos: Point { x: clip(c.pos.x + vx) as i64, y: clip(c.pos.y + vy) as i64 },
        size: c.size,
        vel: Point { x: vx as i64, y: vy as i64 },
    }
}

pub open spec fn integrate(cells: Seq<Cell>, flows: Seq<Point>) -> Seq<Cell> {
    Seq::new(cells.len(), |i: int| integrate_cell(cells[i], flows[i]))
}

/// The field display buffer is due for replacement on this tick.
pub open spec fn refresh_due(frame_id: int) -> bool {
    frame_id % (FIELD_PERIOD as int) == 0
}

/// Arena extent along one axis in fixed-point units.
pub open spec fn extent(pixels: u32) -> int {
    pixels * UNIT
}

pub open spec fn bound_to(v: int, hi: int) -> int {
    if v < 0 {
        0
    } else if v > hi {
        hi
    } else {
        v
    }
}

/// Whether the field display buffer is replaced on tick `frame_id`.
pub fn field_refresh_due(frame_id: usize) -> (r: bool)
    ensures
        r == refresh_due(frame_id as int),
{
    frame_id % FIELD_PERIOD == 0
}

fn extent_exec(pixels: u32) -> (r: i64)
    ensures
        r == extent(pixels),
        0 <= r <= COORD_LIMIT,
{
    (pixels as i64) * UNIT
}

fn drift_exec(v: i64, f: i64) -> (r: i64)
    requires
        -COORD_LIMIT <= v <= COORD_LIMIT,
    ensures
        r == drift(v as int, f as int),
        -COORD_LIMIT <= r <= COORD_LIMIT,
{
    let d = div_toward_zero_exec(9 * (v as i128), 10);
    clip_coord(d + f as i128)
}

/// Velocity and position integration of every cell.
fn integrate_cells(cells: &Vec<Cell>, flows: &Vec<Point>) -> (r: Vec<Cell>)
    requires
        all_wf(cells@),
        flows.len() == cells.len(),
    ensures
        r@ == integrate(cells@, flows@),
        all_wf(r@),
{
    let mut next: Vec<Cell> = Vec::new();
    let mut i: usize = 0;
    while i < cells.len()
        invariant
            i <= cells.len(),
            flows.len() == cells.len(),
            all_wf(cells@),
            next.len() == i,
            forall|k: int| 0 <= k < i ==> #[trigger] next[k] == integrate_cell(cells[k], flows[k]),
            all_wf(next@),
        decreases cells.len() - i,
    {
        let c = cells[i];
        let f = flows[i];
        let vel = Point { x: drift_exec(c.vel.x, f.x), y: drift_exec(c.vel.y, f.y) };
        let pos = Point {
            x: clip_coord(c.pos.x as i128 + vel.x as i128),
            y: clip_coord(c.pos.y as i128 + vel.y as i128),
        };
        next.push(Cell { pos, size: c.size, vel });
        i = i + 1;
    }
    proof {
        assert(next@ =~= integrate(cells@, flows@));
    }
    next
}

proof fn lemma_far_misses(d: int, r: int)
    requires
        0 < r <= RADIUS_LIMIT,
        d < -0x2_0000_0000 || d > 0x2_0000_0000,
    ensures
        d * d >= r * r,
{
    assert(d * d >= r * r) by (nonlinear_arith)
        requires
            0 < r <= 0x1_0000_0000,
            d < -0x2_0000_0000 || d > 0x2_0000_0000,
    ;
}

/// Whether a pick at `p` hits cell `c`.
fn hits_exec(c: &Cell, p: Point) -> (r: bool)
    requires
        c.wf(),
    ensures
        r == hits(*c, p),
{
    let dx = (c.pos.x as i128) - (p.x as i128);
    let dy = (c.pos.y as i128) - (p.y as i128);
    proof {
        assert(0 <= dx * dx && 0 <= dy * dy) by (nonlinear_arith);
    }
    if dx < -0x2_0000_0000 || dx > 0x2_0000_0000 {
        proof {
            lemma_far_misses(dx as int, c.size as int);
        }
        false
    } else if dy < -0x2_0000_0000 || dy > 0x2_0000_0000 {
        proof {
            lemma_far_misses(dy as int, c.size as int);
        }
        false
    } else {
        proof {
            assert(dx * dx <= 0x4_0000_0000 * 0x4_0000_0000 && dy * dy <= 0x4_0000_0000 * 0x4_0000_0000)
                by (nonlinear_arith)
                requires
                    -0x2_0000_0000 <= dx <= 0x2_0000_0000,
                    -0x2_0000_0000 <= dy <= 0x2_0000_0000,
            ;
            assert(c.size * c.size <= 0x1_0000_0000 * 0x1_0000_0000) by (nonlinear_arith)
                requires
                    0 < c.size <= 0x1_0000_0000,
            ;
        }
        dx * dx + dy * dy < (c.size as i128) * (c.size as i128)
    }
}

/// The first cell that a pick at `p` hits, scanning in collection order.
fn pick_exec(cells: &Vec<Cell>, p: Point) -> (r: Option<usize>)
    requires
        all_wf(cells@),
    ensures
        r == pick(cells@, p),
{
    let mut i: usize = 0;
    while i < cells.len()
        invariant
            i <= cells.len(),
            all_wf(cells@),
            pick_from(cells@, p, i as int) == pick(cells@, p),
        decreases cells.len() - i,
    {
        if hits_exec(&cells[i], p) {
            return Some(i);
        }
        i = i + 1;
    }
    None
}

impl Habitat {
    /// Every cell is well formed and the focus, if any, indexes a cell.
    pub open spec fn wf(self) -> bool {
        &&& all_wf(self@.cells)
        &&& (self@.focused_cell_idx matches Some(i) ==> i < self@.cells.len())
    }

    /// Arena width in fixed-point units.
    pub open spec fn width(self) -> int {
        extent(self@.size.0)
    }

    /// Arena height in fixed-point units.
    pub open spec fn height(self) -> int {
        extent(self@.size.1)
    }

    /// An empty arena of `habitat_size` pixels, viewed from its centre.
    pub fn new(habitat_size: (u32, u32)) -> (r: Habitat)
        ensures
            r.wf(),
            r@.size == habitat_size,
            r@.camera_target.x == extent(habitat_size.0) / 2,
            r@.camera_target.y == extent(habitat_size.1) / 2,
            r@.focused_cell_idx.is_none(),
            r@.pending_pick.is_none(),
            r@.cells.len() == 0,
            r@.field_buffer.len() == 0,
            !r@.draw_flow_field_bool,
            r@.scale_collision_force,
    {
        let w = extent_exec(habitat_size.0);
        let h = extent_exec(habitat_size.1);
        Habitat {
            camera_target: Point { x: w / 2, y: h / 2 },
            focused_cell_idx: None,
            focused_pos: None,
            habitat_size,
            cells: Vec::new(),
            flow_field_buffer: Vec::new(),
            draw_flow_field_bool: false,
            scale_collision_force: true,
        }
    }

    /// Arena size in pixels.
    pub fn get_size(&self) -> (r: (u32, u32))
        ensures
            r == self@.size,
    {
        self.habitat_size
    }

    /// The last field snapshot taken for display.
    pub fn get_flow_field_buffer(&self) -> (r: &Vec<Point>)
        ensures
            r@ == self@.field_buffer,
    {
        &self.flow_field_buffer
    }

    /// The cells, in collection order.
    pub fn get_cells(&self) -> (r: &Vec<Cell>)
        ensures
            r@ == self@.cells,
    {
        &self.cells
    }

    /// The index of the cell the camera follows, if any.
    pub fn get_focused_cell_idx(&self) -> (r: Option<usize>)
        ensures
            r == self@.focused_cell_idx,
    {
        self.focused_cell_idx
    }

    /// Centre of the camera view.
    pub fn get_camera_target(&self) -> (r: Point)
        ensures
            r == self@.camera_target,
    {
        self.camera_target
    }

    /// Turns division of the collision push by the overlap count on or off.
    pub fn set_scale_collision_force(&mut self, on: bool)
        ensures
            final(self)@ == (HabitatView { scale_collision_force: on, ..old(self)@ }),
    {
        self.scale_collision_force = on;
    }

    /// Turns the display of the flow field on or off.
    pub fn set_draw_flow_field(&mut self, on: bool)
        ensures
            final(self)@ == (HabitatView { draw_flow_field_bool: on, ..old(self)@ }),
    {
        self.draw_flow_field_bool = on;
    }

    /// Asks for the cell under `canvas_pos` to be focused at the next update;
    /// `None` asks for the focus to be dropped then.
    pub fn set_focused_cell(&mut self, canvas_pos: Option<Point>)
        ensures
            final(self)@.pending_pick == canvas_pos,
            final(self)@.camera_target == old(self)@.camera_target,
            final(self)@.focused_cell_idx == old(self)@.focused_cell_idx,
            final(self)@.size == old(self)@.size,
            final(self)@.cells == old(self)@.cells,
            final(self)@.field_buffer == old(self)@.field_buffer,
            final(self)@.draw_flow_field_bool == old(self)@.draw_flow_field_bool,
            final(self)@.scale_collision_force == old(self)@.scale_collision_force,
    {
        self.focused_pos = canvas_pos;
    }

    /// Adds a cell at rest at `pos` with the default radius, at the end of the collection.
    pub fn spawn_cell(&mut self, pos: Point)
        requires
            old(self).wf(),
            pos.bounded(),
        ensures
            final(self).wf(),
            final(self)@.cells == old(self)@.cells.push(
                Cell { pos, size: DEFAULT_RADIUS, vel: Point { x: 0, y: 0 } },
            ),
            final(self)@.camera_target == old(self)@.camera_target,
            final(self)@.focused_cell_idx == old(self)@.focused_cell_idx,
            final(self)@.pending_pick == old(self)@.pending_pick,
            final(self)@.size == old(self)@.size,
            final(self)@.field_buffer == old(self)@.field_buffer,
            final(self)@.draw_flow_field_bool == old(self)@.draw_flow_field_bool,
            final(self)@.scale_collision_force == old(self)@.scale_collision_force,
    {
        self.cells.push(Cell::new(Point::new(pos.x, pos.y), DEFAULT_RADIUS));
        proof {
            assert forall|k: int| 0 <= k < self.cells.len() implies (#[trigger] self.cells[k]).wf() by {
                if k < old(self).cells.len() {
                    assert(self.cells[k] == old(self).cells[k]);
                }
            }
        }
    }

    /// Pans the camera by `step`, keeping its centre on the arena, and drops the focus.
    pub fn move_target(&mut self, step: Point)
        ensures
            final(self)@.focused_cell_idx.is_none(),
            final(self)@.camera_target.x == bound_to(old(self)@.camera_target.x + step.x, old(self).width()),
            final(self)@.camera_target.y == bound_to(old(self)@.camera_target.y + step.y, old(self).height()),
            final(self)@.pending_pick == old(self)@.pending_pick,
            final(self)@.size == old(self)@.size,
            final(self)@.cells == old(self)@.cells,
            final(self)@.field_buffer == old(self)@.field_buffer,
            final(self)@.draw_flow_field_bool == old(self)@.draw_flow_field_bool,
            final(self)@.scale_collision_force == old(self)@.scale_collision_force,
    {
        self.focused_cell_idx = None;
        let w = extent_exec(self.habitat_size.0) as i128;
        let h = extent_exec(self.habitat_size.1) as i128;
        let x = self.camera_target.x as i128 + step.x as i128;
        let y = self.camera_target.y as i128 + step.y as i128;
        let x = if x < 0 {
            0
        } else if x > w {
            w
        } else {
            x
        };
        let y = if y < 0 {
            0
        } else if y > h {
            h
        } else {
            y
        };
        self.camera_target = Point { x: x as i64, y: y as i64 };
    }

    /// One collision pass over all cells.
    pub fn apply_collision(&mut self)
        requires
            old(self).wf(),
        ensures
            final(self).wf(),
            final(self)@.cells == pass(
                old(self)@.cells,
                old(self)@.scale_collision_force,
                old(self).width(),
                old(self).height(),
            ),
            final(self)@.camera_target == old(self)@.camera_target,
            final(self)@.focused_cell_idx == old(self)@.focused_cell_idx,
            final(self)@.pending_pick == old(self)@.pending_pick,
            final(self)@.size == old(self)@.size,
            final(self)@.field_buffer == old(self)@.field_buffer,
            final(self)@.draw_flow_field_bool == old(self)@.draw_flow_field_bool,
            final(self)@.scale_collision_force == old(self)@.scale_collision_force,
    {
        let w = extent_exec(self.habitat_size.0);
        let h = extent_exec(self.habitat_size.1);
        self.cells = collision_pass(&self.cells, self.scale_collision_force, w, h);
    }

    /// One simulation tick.
    ///
    /// A pending pick is resolved first (the first cell in collection order whose
    /// radius covers the pick point, or none) and the camera moves to the focused
    /// cell. On a tick where `field_refresh_due` holds, `fresh_field` replaces the
    /// display buffer. Each cell's velocity becomes nine tenths of itself plus its
    /// entry of `flows` (the flow sample at the cell, already scaled by the flow
    /// strength), its position moves by the new velocity, and
    /// `collision_iterations` collision passes follow.
    pub fn update(
        &mut self,
        frame_id: usize,
        flows: &Vec<Point>,
        fresh_field: Option<Vec<Point>>,
        collision_iterations: usize,
    )
        requires
            old(self).wf(),
            flows.len() == old(self)@.cells.len(),
        ensures
            final(self).wf(),
            final(self)@.pending_pick.is_none(),
            final(self)@.focused_cell_idx == (match old(self)@.pending_pick {
                Some(p) => pick(old(self)@.cells, p),
                None => old(self)@.focused_cell_idx,
            }),
            final(self)@.camera_target == (match final(self)@.focused_cell_idx {
                Some(i) => old(self)@.cells[i as int].pos,
                None => old(self)@.camera_target,
            }),
            final(self)@.field_buffer == (match fresh_field {
                Some(b) if refresh_due(frame_id as int) => b@,
                _ => old(self)@.field_buffer,
            }),
            final(self)@.cells == passes(
                integrate(old(self)@.cells, flows@),
                collision_iterations as nat,
                old(self)@.scale_collision_force,
                old(self).width(),
                old(self).height(),
            ),
            final(self)@.size == old(self)@.size,
            final(self)@.draw_flow_field_bool == old(self)@.draw_flow_field_bool,
            final(self)@.scale_collision_force == old(self)@.scale_collision_force,
    {
        if let Some(p) = self.focused_pos {
            self.focused_cell_idx = pick_exec(&self.cells, p);
            proof {
                lemma_pick_from(self.cells@, p, 0);
            }
            self.focused_pos = None;
        }
        if let Some(i) = self.focused_cell_idx {
            self.camera_target = self.cells[i].pos;
        }
        if field_refresh_due(frame_id) {
            if let Some(b) = fresh_field {
                self.flow_field_buffer = b;
            }
        }
        let w = extent_exec(self.habitat_size.0);
        let h = extent_exec(self.habitat_size.1);
        let integrated = integrate_cells(&self.cells, flows);
        let ghost start = integrated@;
        let mut cells = integrated;
        let mut it: usize = 0;
        while it < collision_iterations
            invariant
                it <= collision_iterations,
                all_wf(cells@),
                cells.len() == self.cells.len(),
                self.wf(),
                side_ok(w as int),
                side_ok(h as int),
                cells@ == passes(start, it as nat, self.scale_collision_force, w as int, h as int),
            decreases collision_iterations - it,
        {
            cells = collision_pass(&cells, self.scale_collision_force, w, h);
            it = it + 1;
        }
        self.cells = cells;
    }
}

} // verus!

verus! {

/// A tick on an empty collection leaves it empty, whatever the number of
/// collision passes, and a pick on it lands nowhere.
pub proof fn lemma_empty_tick(flows: Seq<Point>, k: nat, scale: bool, w: int, h: int, p: Point)
    ensures
        passes(integrate(Seq::<Cell>::empty(), flows), k, scale, w, h).len() == 0,
        pick(Seq::<Cell>::empty(), p).is_none(),
    decreases k,
{
    if k > 0 {
        lemma_empty_tick(flows, (k - 1) as nat, scale, w, h, p);
    }
}

/// After a tick on which the display buffer is replaced, the next nine ticks
/// leave it alone and the tenth replaces it again.
pub proof fn lemma_field_cadence(k: int)
    requires
        0 <= k,
        refresh_due(k),
    ensures
        forall|t: int| 1 <= t <= 9 ==> !#[trigger] refresh_due(k + t),
        refresh_due(k + 10),
{
    assert forall|t: int| 1 <= t <= 9 implies !#[trigger] refresh_due(k + t) by {
        assert((k + t) % 10 == t);
    }
}

} // verus!
