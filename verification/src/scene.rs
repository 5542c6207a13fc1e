//! Rendering a scene of triangle meshes with one directional light.
//!
//! Model space is fixed point: a coordinate counts steps of `1 / UNIT`, so
//! that the square from `-UNIT` to `UNIT` is what the surface shows. Each
//! face is projected straight onto the surface, without perspective, and
//! filled with one gray whose brightness is the cosine of the angle between
//! the face's normal and the light. A face that the light does not reach,
//! and a face without area, is not drawn.
use vstd::prelude::*;
use crate::arith::floor_div;
use crate::arith::lemma_product_bound;
use crate::arith::product;
use crate::color::Color;
use crate::surface::Drawer;
use crate::surface::pixels_fault;
use crate::surface::Surface;
use crate::surface::SurfaceError;
use crate::vector::IVec3;
use crate::vector::UVec2;

verus! {

/// The number of steps that make one unit of model space.
pub const UNIT: i16 = 4096;

/// A position or a direction in model space.
#[derive(Clone, Copy, Debug, PartialEq, Eq, Structural)]
pub struct Vertex {
    pub x: i16,
    pub y: i16,
    pub z: i16,
}

/// A triangle mesh: positions, and faces that name three positions each by index.
pub struct Mesh {
    pub vertices: Vec<Vertex>,
    pub faces: Vec<[u32; 3]>,
}

/// Why a scene could not be rendered.
#[derive(Clone, Copy, Debug, PartialEq, Eq, Structural)]
pub enum SceneError {
    /// The face `face` of the mesh `mesh` names a vertex that the mesh does not have.
    FaceOutOfRange { mesh: usize, face: usize },
}

/// Why a frame could not be rendered.
#[derive(Clone, Copy, Debug, PartialEq, Eq, Structural)]
pub enum FrameError {
    /// The picture and its size do not make a surface.
    Surface(SurfaceError),
    /// The scene cannot be rendered.
    Scene(SceneError),
}

/// A vector of whole numbers of any size.
pub struct Vector {
    pub x: int,
    pub y: int,
    pub z: int,
}

impl Vector {
    pub open spec fn dot(self, other: Vector) -> int {
        self.x * other.x + self.y * other.y + self.z * other.z
    }

    pub open spec fn cross(self, other: Vector) -> Vector {
        Vector {
            x: self.y * other.z - self.z * other.y,
            y: self.z * other.x - self.x * other.z,
            z: self.x * other.y - self.y * other.x,
        }
    }
}

impl Vertex {
    pub fn new(x: i16, y: i16, z: i16) -> (v: Vertex)
        ensures
            v == (Vertex { x, y, z }),
    {
        Vertex { x, y, z }
    }

    /// The vector from `from` to this position.
    pub open spec fn minus(self, from: Vertex) -> Vector {
        Vector { x: self.x - from.x, y: self.y - from.y, z: self.z - from.z }
    }

    /// The vertex as a vector from the origin.
    pub open spec fn vector(self) -> Vector {
        Vector { x: self.x as int, y: self.y as int, z: self.z as int }
    }
}

impl Mesh {
    /// The three indices of the face `f` each name a vertex of the mesh.
    pub open spec fn face_in_range(self, f: int) -> bool {
        &&& self.faces@[f][0] < self.vertices@.len()
        &&& self.faces@[f][1] < self.vertices@.len()
        &&& self.faces@[f][2] < self.vertices@.len()
    }

    /// Every face of the mesh names vertices of the mesh.
    pub open spec fn in_range(self) -> bool {
        forall|f: int| 0 <= f < self.faces@.len() ==> self.face_in_range(f)
    }

    /// The three corners of the face `f`.
    pub open spec fn corners(self, f: int) -> [Vertex; 3] {
        [
            self.vertices@[self.faces@[f][0] as int],
            self.vertices@[self.faces@[f][1] as int],
            self.vertices@[self.faces@[f][2] as int],
        ]
    }
}

/// Every face of every mesh names vertices of its mesh.
pub open spec fn scene_in_range(scene: Seq<Mesh>) -> bool {
    forall|m: int| 0 <= m < scene.len() ==> (#[trigger] scene[m]).in_range()
}

/// The face `f` of the mesh `m` is the first of the scene, in the order of
/// rendering, that names a vertex which its mesh does not have.
pub open spec fn first_fault(scene: Seq<Mesh>, m: int, f: int) -> bool {
    &&& 0 <= m < scene.len()
    &&& 0 <= f < scene[m].faces@.len()
    &&& !scene[m].face_in_range(f)
    &&& forall|g: int| 0 <= g < f ==> scene[m].face_in_range(g)
    &&& forall|i: int| 0 <= i < m ==> (#[trigger] scene[i]).in_range()
}

/// A number held to the range of a screen coordinate.
pub open spec fn held(v: int) -> int {
    if v < i32::MIN {
        i32::MIN as int
    } else if v > i32::MAX {
        i32::MAX as int
    } else {
        v
    }
}

/// Where a model coordinate falls along a side of `side` pixels: the range
/// from `-UNIT` to `UNIT` is stretched over the side, and the result rounded
/// down and held to the range of a screen coordinate.
pub open spec fn projected_coordinate(c: int, side: int) -> int {
    held(((c + UNIT) * side) / (2 * UNIT))
}

/// The screen point of a vertex on a surface of the given size. The depth is
/// the vertex's own `z`.
pub open spec fn projected(v: Vertex, width: int, height: int) -> IVec3 {
    IVec3 {
        x: projected_coordinate(v.x as int, width) as i32,
        y: projected_coordinate(v.y as int, height) as i32,
        z: v.z as i32,
    }
}

/// The normal of a face, not yet of length one: the cross product of the
/// edge to the third corner with the edge to the second.
pub open spec fn normal(corners: [Vertex; 3]) -> Vector {
    corners[2].minus(corners[0]).cross(corners[1].minus(corners[0]))
}

/// The brightness of a face as a fraction: its numerator is `lit`, and the
/// square of its denominator is `spread`.
pub open spec fn lit(corners: [Vertex; 3], light: Vertex) -> int {
    normal(corners).dot(light.vector())
}

/// The squared lengths of the normal and of the light, multiplied.
pub open spec fn spread(corners: [Vertex; 3], light: Vertex) -> int {
    normal(corners).dot(normal(corners)) * light.vector().dot(light.vector())
}

/// Whether a brightness of `lit / sqrt(spread)`, scaled to 255, rounds to
/// `level` or more: it is not below `level - 1/2`.
pub open spec fn reaches(lit: int, spread: int, level: int) -> bool {
    level <= 0 || (2 * level - 1) * (2 * level - 1) * spread <= (510 * lit) * (510 * lit)
}

/// The greatest level up to `level` that the brightness reaches.
pub open spec fn level_up_to(lit: int, spread: int, level: int) -> int
    decreases level,
{
    if level <= 0 {
        0
    } else if reaches(lit, spread, level) {
        level
    } else {
        level_up_to(lit, spread, level - 1)
    }
}

/// The gray level of a face in the light: the brightness scaled to 255,
/// rounded to the nearest level, and never above 255.
pub open spec fn gray_level(corners: [Vertex; 3], light: Vertex) -> int {
    level_up_to(lit(corners, light), spread(corners, light), 255)
}

/// The color in which a face is drawn, or nothing for a face that is not
/// drawn: one whose brightness is zero or less.
pub open spec fn shaded(corners: [Vertex; 3], light: Vertex) -> Option<Color> {
    if lit(corners, light) <= 0 {
        None
    } else {
        let level = gray_level(corners, light) as u8;
        Some(Color { red: level, green: level, blue: level })
    }
}

/// The greatest level up to `level` lies between zero and `level`, is
/// reached, and no level above it up to `level` is reached.
pub proof fn lemma_level_up_to(lit: int, spread: int, level: int)
    requires
        0 <= level,
    ensures
        0 <= level_up_to(lit, spread, level) <= level,
        reaches(lit, spread, level_up_to(lit, spread, level)),
        forall|g: int|
            level_up_to(lit, spread, level) < g <= level ==> !reaches(lit, spread, g),
    decreases level,
{
    if level > 0 && !reaches(lit, spread, level) {
        lemma_level_up_to(lit, spread, level - 1);
    }
}

/// A brightness that reaches a level reaches every level below it, so the
/// greatest level that it reaches is the one to which it rounds.
pub proof fn lemma_reaches_is_monotone(lit: int, spread: int, low: int, high: int)
    requires
        0 <= spread,
        low <= high,
        reaches(lit, spread, high),
    ensures
        reaches(lit, spread, low),
{
    if low >= 1 {
        let a = 2 * low - 1;
        let b = 2 * high - 1;
        assert(a * a <= b * b) by (nonlinear_arith)
            requires
                1 <= a <= b,
        ;
        assert(a * a * spread <= b * b * spread) by (nonlinear_arith)
            requires
                a * a <= b * b,
                0 <= spread,
        ;
    }
}

/// The gray level of a face in the light is its brightness, scaled to 255
/// and rounded: it is the one level up to 255 that the brightness reaches
/// while reaching none above it. So the level lies within one half of 255
/// times the cosine of the angle between the normal and the light, unless
/// it is held at 255.
pub proof fn lemma_gray_level_rounds(corners: [Vertex; 3], light: Vertex)
    ensures
        0 <= gray_level(corners, light) <= 255,
        forall|level: int|
            0 <= level <= 255 ==> (#[trigger] reaches(
                lit(corners, light),
                spread(corners, light),
                level,
            ) <==> level <= gray_level(corners, light)),
        gray_level(corners, light) >= 1 ==> (2 * gray_level(corners, light) - 1) * (2 * gray_level(
            corners,
            light,
        ) - 1) * spread(corners, light) <= (510 * lit(corners, light)) * (510 * lit(
            corners,
            light,
        )),
        gray_level(corners, light) < 255 ==> (2 * gray_level(corners, light) + 1) * (2
            * gray_level(corners, light) + 1) * spread(corners, light) > (510 * lit(
            corners,
            light,
        )) * (510 * lit(corners, light)),
{
    let d = lit(corners, light);
    let m = spread(corners, light);
    let g = gray_level(corners, light);
    let n = normal(corners);
    let l = light.vector();
    lemma_level_up_to(d, m, 255);
    assert(0 <= n.dot(n)) by (nonlinear_arith)
        requires
            n.dot(n) == n.x * n.x + n.y * n.y + n.z * n.z,
    ;
    assert(0 <= l.dot(l)) by (nonlinear_arith)
        requires
            l.dot(l) == l.x * l.x + l.y * l.y + l.z * l.z,
    ;
    assert(0 <= m) by (nonlinear_arith)
        requires
            m == n.dot(n) * l.dot(l),
            0 <= n.dot(n),
            0 <= l.dot(l),
    ;
    assert forall|level: int| 0 <= level <= 255 implies (#[trigger] reaches(d, m, level) <==> level
        <= g) by {
        if level <= g {
            lemma_reaches_is_monotone(d, m, level, g);
        }
    }
    if g < 255 {
        assert(!reaches(d, m, g + 1));
        assert(2 * (g + 1) - 1 == 2 * g + 1);
    }
}

/// Projects one model coordinate onto a side of the surface.
fn project_coordinate(c: i16, side: u32) -> (at: i32)
    ensures
        at == projected_coordinate(c as int, side as int),
{
    let shifted: i64 = c as i64 + UNIT as i64;
    proof {
        lemma_product_bound(shifted as int, side as int, 0x1_0000, 0x1_0000_0000);
    }
    let stretched: i64 = shifted * side as i64;
    let q: i128 = floor_div(stretched as i128, 2 * UNIT as i128);
    if q < i32::MIN as i128 {
        i32::MIN
    } else if q > i32::MAX as i128 {
        i32::MAX
    } else {
        q as i32
    }
}

/// Projects a vertex onto a surface of the given size.
pub fn project(v: Vertex, size: UVec2) -> (at: IVec3)
    ensures
        at == projected(v, size.x as int, size.y as int),
{
    IVec3 { x: project_coordinate(v.x, size.x), y: project_coordinate(v.y, size.y), z: v.z as i32 }
}

/// One component of a cross product of two differences of vertices.
fn cross_component(a: i64, b: i64, c: i64, d: i64) -> (r: i128)
    requires
        -0x1_0000 <= a <= 0x1_0000,
        -0x1_0000 <= b <= 0x1_0000,
        -0x1_0000 <= c <= 0x1_0000,
        -0x1_0000 <= d <= 0x1_0000,
    ensures
        r == a * b - c * d,
        -0x2_0000_0000 <= r <= 0x2_0000_0000,
{
    proof {
        lemma_product_bound(a as int, b as int, 0x1_0000, 0x1_0000);
        lemma_product_bound(c as int, d as int, 0x1_0000, 0x1_0000);
    }
    product(a, b) - product(c, d)
}

/// The sum of three products of numbers within the given bounds.
fn dot3(a: i128, b: i128, c: i128, d: i128, e: i128, f: i128) -> (r: i128)
    requires
        -0x2_0000_0000 <= a <= 0x2_0000_0000,
        -0x2_0000_0000 <= b <= 0x2_0000_0000,
        -0x2_0000_0000 <= c <= 0x2_0000_0000,
        -0x2_0000_0000 <= d <= 0x2_0000_0000,
        -0x2_0000_0000 <= e <= 0x2_0000_0000,
        -0x2_0000_0000 <= f <= 0x2_0000_0000,
    ensures
        r == a * d + b * e + c * f,
{
    proof {
        lemma_product_bound(a as int, d as int, 0x2_0000_0000, 0x2_0000_0000);
        lemma_product_bound(b as int, e as int, 0x2_0000_0000, 0x2_0000_0000);
        lemma_product_bound(c as int, f as int, 0x2_0000_0000, 0x2_0000_0000);
    }
    a * d + b * e + c * f
}

/// Whether the brightness reaches the level, computed.
fn level_reached(lit: i128, spread: i128, level: i128) -> (yes: bool)
    requires
        0 <= level <= 255,
        -0x4_0000_0000_0000 <= lit <= 0x4_0000_0000_0000,
        0 <= spread <= 0x10_0000_0000_0000_0000_0000_0000,
    ensures
        yes == reaches(lit as int, spread as int, level as int),
{
    if level == 0 {
        return true;
    }
    let step: i128 = 2 * level - 1;
    proof {
        lemma_product_bound(step as int, step as int, 512, 512);
        lemma_product_bound(
            (step * step) as int,
            spread as int,
            0x4_0000,
            0x10_0000_0000_0000_0000_0000_0000,
        );
        lemma_product_bound(
            (510 * lit) as int,
            (510 * lit) as int,
            0x7F8_0000_0000_0000,
            0x7F8_0000_0000_0000,
        );
    }
    step * step * spread <= (510 * lit) * (510 * lit)
}

/// Shades a face: the gray in which the light shows it, or nothing if the
/// face is turned away from the light, lies along it, or has no area.
pub fn shade(corners: [Vertex; 3], light: Vertex) -> (color: Option<Color>)
    ensures
        color == shaded(corners, light),
{
    let ex: i64 = corners[2].x as i64 - corners[0].x as i64;
    let ey: i64 = corners[2].y as i64 - corners[0].y as i64;
    let ez: i64 = corners[2].z as i64 - corners[0].z as i64;
    let fx: i64 = corners[1].x as i64 - corners[0].x as i64;
    let fy: i64 = corners[1].y as i64 - corners[0].y as i64;
    let fz: i64 = corners[1].z as i64 - corners[0].z as i64;
    let nx: i128 = cross_component(ey, fz, ez, fy);
    let ny: i128 = cross_component(ez, fx, ex, fz);
    let nz: i128 = cross_component(ex, fy, ey, fx);
    let lx: i128 = light.x as i128;
    let ly: i128 = light.y as i128;
    let lz: i128 = light.z as i128;
    let lit_by: i128 = dot3(nx, ny, nz, lx, ly, lz);
    proof {
        lemma_product_bound(nx as int, lx as int, 0x2_0000_0000, 0x8000);
        lemma_product_bound(ny as int, ly as int, 0x2_0000_0000, 0x8000);
        lemma_product_bound(nz as int, lz as int, 0x2_0000_0000, 0x8000);
    }
    if lit_by <= 0 {
        return None;
    }
    let normal_square: i128 = dot3(nx, ny, nz, nx, ny, nz);
    let light_square: i128 = dot3(lx, ly, lz, lx, ly, lz);
    proof {
        lemma_product_bound(nx as int, nx as int, 0x2_0000_0000, 0x2_0000_0000);
        lemma_product_bound(ny as int, ny as int, 0x2_0000_0000, 0x2_0000_0000);
        lemma_product_bound(nz as int, nz as int, 0x2_0000_0000, 0x2_0000_0000);
        lemma_product_bound(lx as int, lx as int, 0x8000, 0x8000);
        lemma_product_bound(ly as int, ly as int, 0x8000, 0x8000);
        lemma_product_bound(lz as int, lz as int, 0x8000, 0x8000);
        assert(0 <= nx * nx && 0 <= ny * ny && 0 <= nz * nz) by (nonlinear_arith);
        assert(0 <= lx * lx && 0 <= ly * ly && 0 <= lz * lz) by (nonlinear_arith);
        lemma_product_bound(
            normal_square as int,
            light_square as int,
            0xC_0000_0000_0000_0000,
            0xC000_0000,
        );
        assert(0 <= normal_square * light_square) by (nonlinear_arith)
            requires
                0 <= normal_square,
                0 <= light_square,
        ;
    }
    let spread_by: i128 = normal_square * light_square;
    let mut level: i128 = 255;
    while level > 0 && !level_reached(lit_by, spread_by, level)
        invariant
            0 <= level <= 255,
            -0x4_0000_0000_0000 <= lit_by <= 0x4_0000_0000_0000,
            0 <= spread_by <= 0x10_0000_0000_0000_0000_0000_0000,
            level_up_to(lit_by as int, spread_by as int, 255) == level_up_to(
                lit_by as int,
                spread_by as int,
                level as int,
            ),
        decreases level,
    {
        level = level - 1;
    }
    Some(Color::gray(level as u8))
}

impl Surface {
    /// The surface after one face was rendered: projected, shaded, and, if
    /// the light shows it, filled.
    pub open spec fn with_face(self, corners: [Vertex; 3], light: Vertex) -> Surface {
        match shaded(corners, light) {
            None => self,
            Some(color) => self.filled(
                [
                    projected(corners[0], self.width as int, self.height as int),
                    projected(corners[1], self.width as int, self.height as int),
                    projected(corners[2], self.width as int, self.height as int),
                ],
                color.packed(),
            ),
        }
    }

    /// The surface after the first `count` faces of the mesh were rendered in order.
    pub open spec fn with_faces(self, mesh: Mesh, count: int, light: Vertex) -> Surface
        decreases count,
    {
        if count <= 0 {
            self
        } else {
            self.with_faces(mesh, count - 1, light).with_face(mesh.corners(count - 1), light)
        }
    }

    /// The surface after the first `count` meshes of the scene were rendered in order.
    pub open spec fn with_meshes(self, scene: Seq<Mesh>, count: int, light: Vertex) -> Surface
        decreases count,
    {
        if count <= 0 {
            self
        } else {
            self.with_meshes(scene, count - 1, light).with_faces(
                scene[count - 1],
                scene[count - 1].faces@.len() as int,
                light,
            )
        }
    }

    /// The surface after the whole scene was rendered.
    pub open spec fn rendered(self, scene: Seq<Mesh>, light: Vertex) -> Surface {
        self.with_meshes(scene, scene.len() as int, light)
    }
}

/// Looks for a face that names a vertex which its mesh does not have, and
/// reports the first one.
pub fn check_scene(scene: &Vec<Mesh>) -> (checked: Result<(), SceneError>)
    ensures
        match checked {
            Ok(()) => scene_in_range(scene@),
            Err(SceneError::FaceOutOfRange { mesh, face }) => first_fault(
                scene@,
                mesh as int,
                face as int,
            ),
        },
{
    let mut m: usize = 0;
    while m < scene.len()
        invariant
            m <= scene.len(),
            forall|i: int| 0 <= i < m ==> (#[trigger] scene@[i]).in_range(),
        decreases scene.len() - m,
    {
        let mesh = &scene[m];
        let count: usize = mesh.vertices.len();
        let mut f: usize = 0;
        while f < mesh.faces.len()
            invariant
                f <= mesh.faces.len(),
                m < scene.len(),
                *mesh == scene@[m as int],
                count == mesh.vertices@.len(),
                forall|i: int| 0 <= i < m ==> (#[trigger] scene@[i]).in_range(),
                forall|g: int| 0 <= g < f ==> mesh.face_in_range(g),
            decreases mesh.faces.len() - f,
        {
            let face = mesh.faces[f];
            if face[0] as usize >= count || face[1] as usize >= count || face[2] as usize
                >= count {
                return Err(SceneError::FaceOutOfRange { mesh: m, face: f });
            }
            f += 1;
        }
        m += 1;
    }
    Ok(())
}

impl Drawer {
    /// Renders one face in the given light.
    pub fn render_face(&mut self, corners: [Vertex; 3], light: Vertex)
        requires
            old(self).wf(),
        ensures
            final(self).wf(),
            final(self)@ == old(self)@.with_face(corners, light),
    {
        let size = self.screen_size();
        match shade(corners, light) {
            None => {},
            Some(color) => {
                let pts = [
                    project(corners[0], size),
                    project(corners[1], size),
                    project(corners[2], size),
                ];
                self.triangle(pts, color);
            },
        }
    }

    /// Renders the scene in the given light, mesh by mesh and face by face.
    /// The scene is checked first: if a face names a vertex that its mesh
    /// does not have, nothing is drawn and the first such face is reported.
    pub fn render_scene(&mut self, scene: &Vec<Mesh>, light: Vertex) -> (done: Result<
        (),
        SceneError,
    >)
        requires
            old(self).wf(),
        ensures
            final(self).wf(),
            match done {
                Ok(()) => scene_in_range(scene@) && final(self)@ == old(self)@.rendered(
                    scene@,
                    light,
                ),
                Err(SceneError::FaceOutOfRange { mesh, face }) => first_fault(
                    scene@,
                    mesh as int,
                    face as int,
                ) && final(self)@ == old(self)@,
            },
    {
        match check_scene(scene) {
            Err(fault) => {
                return Err(fault);
            },
            Ok(()) => {},
        }
        let ghost from = self@;
        let mut m: usize = 0;
        while m < scene.len()
            invariant
                self.wf(),
                m <= scene.len(),
                scene_in_range(scene@),
                self@ == from.with_meshes(scene@, m as int, light),
            decreases scene.len() - m,
        {
            let mesh = &scene[m];
            let ghost before = self@;
            let mut f: usize = 0;
            while f < mesh.faces.len()
                invariant
                    self.wf(),
                    f <= mesh.faces.len(),
                    m < scene.len(),
                    *mesh == scene@[m as int],
                    mesh.in_range(),
                    self@ == before.with_faces(*mesh, f as int, light),
                decreases mesh.faces.len() - f,
            {
                let face = mesh.faces[f];
                assert(mesh.face_in_range(f as int));
                let corners = [
                    mesh.vertices[face[0] as usize],
                    mesh.vertices[face[1] as usize],
                    mesh.vertices[face[2] as usize],
                ];
                assert(corners == mesh.corners(f as int));
                self.render_face(corners, light);
                f += 1;
            }
            m += 1;
        }
        Ok(())
    }
}

/// Renders one frame of the scene into a picture of `width` by `height`
/// pixels: the picture is cleared and the scene rendered on it. The picture
/// comes back only when the frame is whole: a picture of the wrong size, a
/// size that makes no surface, or a scene with a face out of range gives the
/// error and no picture.
pub fn render_frame(
    pixels: Vec<u32>,
    width: u32,
    height: u32,
    scene: &Vec<Mesh>,
    light: Vertex,
) -> (frame: Result<Vec<u32>, FrameError>)
    ensures
        match frame {
            Ok(picture) => {
                &&& pixels_fault(pixels@.len() as int, width as int, height as int).is_none()
                &&& scene_in_range(scene@)
                &&& picture@ == Surface::blank(width as nat, height as nat).rendered(
                    scene@,
                    light,
                ).pixels
            },
            Err(FrameError::Surface(fault)) => pixels_fault(
                pixels@.len() as int,
                width as int,
                height as int,
            ) == Some(fault),
            Err(FrameError::Scene(SceneError::FaceOutOfRange { mesh, face })) => {
                &&& pixels_fault(pixels@.len() as int, width as int, height as int).is_none()
                &&& first_fault(scene@, mesh as int, face as int)
            },
        },
{
    match Drawer::from_pixels(pixels, width, height) {
        Err(fault) => Err(FrameError::Surface(fault)),
        Ok(mut drawer) => {
            drawer.clear();
            proof {
                let cleared = Surface::over(pixels@, width as nat, height as nat).cleared();
                assert(cleared.pixels =~= Surface::blank(width as nat, height as nat).pixels);
                assert(cleared == Surface::blank(width as nat, height as nat));
            }
            match drawer.render_scene(scene, light) {
                Err(fault) => Err(FrameError::Scene(fault)),
                Ok(()) => Ok(drawer.finish()),
            }
        },
    }
}

} // verus!
