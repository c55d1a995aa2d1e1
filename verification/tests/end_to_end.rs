//! The solver state driven by a plain set of kernels, frame by frame.

use pcisph::config::{GRID_HEIGHT, GRID_WIDTH, SOLVER_STEPS};
use pcisph::grid::CellCoord;
use pcisph::placement::isqrt;
use pcisph::state::{Event, Phase, State};

const VIEW_WIDTH: f32 = 20.0;
const VIEW_HEIGHT: f32 = 720.0 * VIEW_WIDTH / 1024.0;
const GRAVITY: f32 = -9.81;
const REST_DENS: f32 = 45.0;
const STIFFNESS: f32 = 0.08;
const STIFF_APPROX: f32 = 0.1;
const SURFACE_TENSION: f32 = 0.0001;
const LINEAR_VISC: f32 = 0.25;
const QUAD_VISC: f32 = 0.5;
const PARTICLE_RADIUS: f32 = 0.03;
const H: f32 = 6.0 * PARTICLE_RADIUS;
const DT: f32 = (1.0 / 40.0) / SOLVER_STEPS as f32;
const KERN: f32 = 20.0 / (2.0 * std::f32::consts::PI * H * H);
const KERN_NORM: f32 = 30.0 / (2.0 * std::f32::consts::PI * H * H);
const EPS: f32 = 0.000_000_1;

#[derive(Clone, Copy, Debug, PartialEq)]
struct Body {
    x: [f32; 2],
    xlast: [f32; 2],
    v: [f32; 2],
    m: f32,
    p: f32,
    pv: f32,
    d: f32,
}

struct Fluid {
    bodies: Vec<Body>,
    state: State<f32>,
}

impl Fluid {
    fn new() -> Fluid {
        Fluid { bodies: Vec::new(), state: State::new() }
    }

    fn place(&mut self, start: [f32; 2], n: usize, v: [f32; 2]) {
        let side = isqrt(n);
        self.state.place_square(n);
        let mut at = start;
        for _ in 0..side {
            for _ in 0..side {
                self.bodies.push(Body { x: at, xlast: at, v, m: 1.0, p: 0.0, pv: 0.0, d: 0.0 });
                at[0] += 3.0 * PARTICLE_RADIUS;
            }
            at[0] = start[0];
            at[1] -= 3.0 * PARTICLE_RADIUS;
        }
        assert_eq!(self.bodies.len(), self.state.count());
    }

    fn dam_break(n: usize) -> Fluid {
        let mut fluid = Fluid::new();
        fluid.place([0.25 * VIEW_WIDTH, 0.95 * VIEW_HEIGHT], n, [0.0, 0.0]);
        fluid
    }

    fn integrate(&mut self) -> Vec<CellCoord> {
        let mut raw = Vec::with_capacity(self.bodies.len());
        for b in self.bodies.iter_mut() {
            b.v[1] += GRAVITY * DT;
            b.xlast = b.x;
            b.x[0] += DT * b.v[0];
            b.x[1] += DT * b.v[1];
            raw.push(CellCoord {
                x: (b.x[0] / H).floor() as usize,
                y: (b.x[1] / H).floor() as usize,
            });
        }
        raw
    }

    fn measure(&mut self) -> Vec<Vec<Option<f32>>> {
        let before = self.bodies.clone();
        let mut measured = Vec::with_capacity(before.len());
        for (i, b) in self.bodies.iter_mut().enumerate() {
            let mut dens = 0.0;
            let mut dens_proj = 0.0;
            let cands = self.state.candidates(i);
            let mut row = Vec::with_capacity(cands.len());
            for j in cands {
                let other = before[j];
                let dx = [other.x[0] - b.x[0], other.x[1] - b.x[1]];
                let r2 = dx[0] * dx[0] + dx[1] * dx[1];
                if !(EPS * EPS..=H * H).contains(&r2) {
                    row.push(None);
                    continue;
                }
                let r = r2.sqrt();
                let a = 1.0 - r / H;
                dens += other.m * a * a * a * KERN;
                dens_proj += other.m * a * a * a * a * KERN_NORM;
                row.push(Some(r));
            }
            b.d = dens;
            b.p = STIFFNESS * (dens - b.m * REST_DENS);
            b.pv = STIFF_APPROX * dens_proj;
            measured.push(row);
        }
        measured
    }

    fn project(&mut self) {
        let before = self.bodies.clone();
        let walls = [[1.0, 0.0, 0.0], [0.0, 1.0, 0.0], [-1.0, 0.0, -VIEW_WIDTH], [0.0, -1.0, -VIEW_HEIGHT]];
        for (i, b) in self.bodies.iter_mut().enumerate() {
            let mut xproj = b.x;
            for n in self.state.neighbors(i) {
                let other = before[n.index];
                let r = n.r;
                let dx = [other.x[0] - b.x[0], other.x[1] - b.x[1]];
                let a = 1.0 - r / H;
                let d = DT * DT
                    * ((b.pv + other.pv) * a * a * a * KERN_NORM + (b.p + other.p) * a * a * KERN)
                    / 2.0;
                let tension = (SURFACE_TENSION / b.m) * other.m * a * a * KERN;
                let mut u = (b.v[0] - other.v[0]) * dx[0] + (b.v[1] - other.v[1]) * dx[1];
                let mut visc = 0.0;
                if u > 0.0 {
                    u /= r;
                    visc = 0.5 * DT * a * (LINEAR_VISC * u + QUAD_VISC * u * u) * DT;
                }
                for axis in 0..2 {
                    xproj[axis] -= d * dx[axis] / (r * b.m);
                    xproj[axis] += tension * dx[axis];
                    xproj[axis] -= visc * dx[axis];
                }
            }
            b.x = xproj;
            b.v = [(xproj[0] - b.xlast[0]) / DT, (xproj[1] - b.xlast[1]) / DT];
            for w in walls.iter() {
                let d = f32::max(b.x[0] * w[0] + b.x[1] * w[1] - w[2], 0.0);
                if d < PARTICLE_RADIUS {
                    b.v[0] += (PARTICLE_RADIUS - d) * w[0] / DT;
                    b.v[1] += (PARTICLE_RADIUS - d) * w[1] / DT;
                }
            }
        }
    }

    fn substep(&mut self) {
        assert_eq!(self.state.phase(), Phase::Integrate);
        let raw = self.integrate();
        assert_eq!(self.state.update(Event::Integrated(raw)), Phase::Density);
        let measured = self.measure();
        assert_eq!(self.state.update(Event::Measured(measured)), Phase::Projection);
        self.project();
        self.state.update(Event::Projected);
    }

    fn step(&mut self) {
        assert_eq!(self.state.update(Event::Begin), Phase::Integrate);
        let mut substeps = 0;
        while self.state.phase() != Phase::Idle {
            self.substep();
            substeps += 1;
        }
        assert_eq!(substeps, SOLVER_STEPS);
        assert_eq!(self.bodies.len(), self.state.count());
    }
}

#[test]
fn the_default_grid_fits_the_domain() {
    assert_eq!((VIEW_WIDTH / H) as usize, GRID_WIDTH);
    assert_eq!((VIEW_HEIGHT / H) as usize, GRID_HEIGHT);
}

#[test]
fn a_lone_particle_is_only_moved_by_gravity() {
    let mut fluid = Fluid::new();
    fluid.place([10.0, 7.0], 1, [0.0, 0.0]);
    fluid.state.update(Event::Begin);
    fluid.substep();
    let b = fluid.bodies[0];
    assert!(fluid.state.neighbors(0).is_empty());
    assert_eq!(b.d, 0.0);
    assert_eq!(b.p, STIFFNESS * (0.0 - 1.0 * REST_DENS));
    assert_eq!(b.pv, 0.0);
    assert_eq!(b.x[0], 10.0);
    let fall = 7.0 - b.x[1];
    assert!((fall - 9.81 * DT * DT).abs() < 1.0e-6, "fell by {fall}");
}

#[test]
fn a_particle_thrown_at_a_wall_comes_back() {
    for (start, v, axis) in [
        ([0.5, 7.0], [-40.0, 0.0], 0),
        ([19.5, 7.0], [40.0, 0.0], 0),
        ([10.0, 13.5], [0.0, 40.0], 1),
        ([10.0, 0.5], [0.0, -40.0], 1),
    ] {
        let mut fluid = Fluid::new();
        fluid.place(start, 1, v);
        for _ in 0..4 {
            fluid.step();
        }
        let size = if axis == 0 { VIEW_WIDTH } else { VIEW_HEIGHT };
        for _ in 0..4 {
            fluid.step();
            let x = fluid.bodies[0].x[axis];
            assert!(x.is_finite());
            assert!(x >= -PARTICLE_RADIUS && x <= size + PARTICLE_RADIUS, "at {x}");
        }
        assert_eq!(fluid.state.count(), 1);
    }
}

#[test]
fn equal_runs_give_equal_positions() {
    let mut first = Fluid::dam_break(400);
    let mut second = Fluid::dam_break(400);
    for _ in 0..5 {
        first.step();
        second.step();
    }
    assert_eq!(first.bodies.len(), 400);
    assert_eq!(first.bodies, second.bodies);
}

#[test]
fn a_dam_break_stays_finite_and_settles_near_rest_density() {
    let mut fluid = Fluid::dam_break(2000);
    assert_eq!(fluid.state.count(), 44 * 44);
    for _ in 0..100 {
        fluid.step();
    }
    assert_eq!(fluid.state.count(), 44 * 44);
    // The bulk of the fluid: particles with at least six neighbors.
    let mut bulk = Vec::new();
    for (i, b) in fluid.bodies.iter().enumerate() {
        assert!(b.x[0].is_finite() && b.x[1].is_finite());
        assert!(b.v[0].is_finite() && b.v[1].is_finite());
        assert!(b.d.is_finite() && b.d >= 0.0);
        assert!(b.x[0] >= -H && b.x[0] <= VIEW_WIDTH + H);
        assert!(b.x[1] >= -H && b.x[1] <= VIEW_HEIGHT + H);
        let list = fluid.state.neighbors(i);
        assert!(list.len() <= 64);
        assert!(list.iter().all(|n| n.index != i && n.index < 44 * 44 && n.r > EPS && n.r <= H));
        if list.len() >= 6 {
            bulk.push(b.d);
        }
    }
    assert!(bulk.len() >= 500, "bulk of {}", bulk.len());
    let mean = bulk.iter().sum::<f32>() / bulk.len() as f32;
    assert!((mean - REST_DENS).abs() <= 0.2 * REST_DENS, "mean bulk density {mean}");
}
