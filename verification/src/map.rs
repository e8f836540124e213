//! A map: the records of its lumps, and the integer geometry of its walls and floors.
use vstd::prelude::*;
use crate::wad::bytes::{all_decodable, bytes_to_vec, decodes_records, records_decodable, records_fit, Record};
use crate::wad::types::{IVec2, Linedef, Sector, Sidedef, Thing, Vertex, WadName};
use crate::wad::{find_last, lump_bytes, lump_fits, lump_names, WadFile, WadModel};

verus! {

/// The lumps of one map, decoded.
#[derive(Debug, Clone)]
pub struct DoomMap {
    pub name: WadName,
    pub things: Vec<Thing>,
    pub linedefs: Vec<Linedef>,
    pub sidedefs: Vec<Sidedef>,
    pub vertices: Vec<Vertex>,
    pub sectors: Vec<Sector>,
}

/// Whether lump `i` exists, lies within the file, and decodes as records of `T` where it
/// is a whole number of them.
pub open spec fn record_lump_ok<T: Record>(w: WadModel, i: int) -> bool {
    &&& lump_fits(w, i)
    &&& records_fit::<T>(lump_bytes(w, i)) ==> all_decodable::<T>(lump_bytes(w, i))
}

/// Whether lump `i` holds a whole number of records of `T`.
pub open spec fn record_lump_fits<T: Record>(w: WadModel, i: int) -> bool {
    records_fit::<T>(lump_bytes(w, i))
}

/// Whether loading the map named `name` reads only lumps that exist and records that
/// decode: the map's marker lump is followed by THINGS, LINEDEFS, SIDEDEFS and VERTEXES,
/// and SECTORS comes eight lumps after it; each is read only if the ones before it held
/// whole numbers of records.
pub open spec fn map_loadable(w: WadModel, name: Seq<u8>) -> bool {
    match find_last(lump_names(w.directory), name, 0, w.directory.len() as int) {
        None => true,
        Some(m) => {
            &&& record_lump_ok::<Thing>(w, m + 1)
            &&& record_lump_fits::<Thing>(w, m + 1) ==> {
                &&& record_lump_ok::<Linedef>(w, m + 2)
                &&& record_lump_fits::<Linedef>(w, m + 2) ==> {
                    &&& record_lump_ok::<Sidedef>(w, m + 3)
                    &&& record_lump_fits::<Sidedef>(w, m + 3) ==> {
                        &&& record_lump_ok::<Vertex>(w, m + 4)
                        &&& record_lump_fits::<Vertex>(w, m + 4) ==> record_lump_ok::<Sector>(w, m + 8)
                    }
                }
            }
        },
    }
}

impl DoomMap {
    /// Loads the map whose marker lump is named `name`. `None` where there is no such lump
    /// or one of the map's record lumps has bytes left over after its last whole record.
    pub fn load(wad: &WadFile, name: WadName) -> (r: Option<Self>)
        requires
            map_loadable(wad@, name@),
        ensures
            r is Some <==> (find_last(lump_names(wad@.directory), name@, 0, wad@.directory.len() as int) matches Some(m) && {
                &&& record_lump_fits::<Thing>(wad@, m + 1)
                &&& record_lump_fits::<Linedef>(wad@, m + 2)
                &&& record_lump_fits::<Sidedef>(wad@, m + 3)
                &&& record_lump_fits::<Vertex>(wad@, m + 4)
                &&& record_lump_fits::<Sector>(wad@, m + 8)
            }),
            r matches Some(map) ==> {
                let m = find_last(lump_names(wad@.directory), name@, 0, wad@.directory.len() as int).unwrap();
                &&& map.name == name
                &&& decodes_records::<Thing>(lump_bytes(wad@, m + 1), map.things@)
                &&& decodes_records::<Linedef>(lump_bytes(wad@, m + 2), map.linedefs@)
                &&& decodes_records::<Sidedef>(lump_bytes(wad@, m + 3), map.sidedefs@)
                &&& decodes_records::<Vertex>(lump_bytes(wad@, m + 4), map.vertices@)
                &&& decodes_records::<Sector>(lump_bytes(wad@, m + 8), map.sectors@)
            },
    {
        let map_index = match wad.find_lump(name) {
            Ok(i) => i,
            Err(_) => {
                return None;
            },
        };
        proof {
            wad.lemma_directory_len();
        }
        let things = match bytes_to_vec::<Thing>(wad.load_lump(map_index + 1)) {
            Ok(v) => v,
            Err(_) => {
                return None;
            },
        };
        let linedefs = match bytes_to_vec::<Linedef>(wad.load_lump(map_index + 2)) {
            Ok(v) => v,
            Err(_) => {
                return None;
            },
        };
        let sidedefs = match bytes_to_vec::<Sidedef>(wad.load_lump(map_index + 3)) {
            Ok(v) => v,
            Err(_) => {
                return None;
            },
        };
        let vertices = match bytes_to_vec::<Vertex>(wad.load_lump(map_index + 4)) {
            Ok(v) => v,
            Err(_) => {
                return None;
            },
        };
        let sectors = match bytes_to_vec::<Sector>(wad.load_lump(map_index + 8)) {
            Ok(v) => v,
            Err(_) => {
                return None;
            },
        };
        Some(DoomMap { name, things, linedefs, sidedefs, vertices, sectors })
    }

    /// Whether `DoomMap::load(wad, name)` may be called: whether its lumps exist and decode.
    pub fn can_load(wad: &WadFile, name: WadName) -> (r: bool)
        ensures
            r == map_loadable(wad@, name@),
    {
        let m = match wad.find_lump(name) {
            Ok(i) => i,
            Err(_) => {
                return true;
            },
        };
        let num_lumps = wad.num_lumps();
        if !wad.lump_in_bounds(m + 1) || !records_decodable::<Thing>(wad.load_lump(m + 1)) {
            return false;
        }
        if wad.load_lump(m + 1).len() % 10 != 0 {
            return true;
        }
        if !wad.lump_in_bounds(m + 2) || !records_decodable::<Linedef>(wad.load_lump(m + 2)) {
            return false;
        }
        if wad.load_lump(m + 2).len() % 14 != 0 {
            return true;
        }
        if !wad.lump_in_bounds(m + 3) || !records_decodable::<Sidedef>(wad.load_lump(m + 3)) {
            return false;
        }
        if wad.load_lump(m + 3).len() % 30 != 0 {
            return true;
        }
        if !wad.lump_in_bounds(m + 4) || !records_decodable::<Vertex>(wad.load_lump(m + 4)) {
            return false;
        }
        if wad.load_lump(m + 4).len() % 4 != 0 {
            return true;
        }
        if m + 4 >= num_lumps - 4 {
            return false;
        }
        wad.lump_in_bounds(m + 8) && records_decodable::<Sector>(wad.load_lump(m + 8))
    }
}

// ---------------------------------------------------------------- REFERENCES

/// Whether sidedef `side` exists and names an existing sector.
pub open spec fn side_valid(m: DoomMap, side: u32) -> bool {
    &&& side < m.sidedefs@.len()
    &&& m.sidedefs@[side as int].sector_i < m.sectors@.len()
}

/// Whether a linedef's vertices and sidedefs exist, and its sidedefs' sectors.
pub open spec fn linedef_valid(m: DoomMap, l: Linedef) -> bool {
    &&& l.start_vertex_i < m.vertices@.len()
    &&& l.end_vertex_i < m.vertices@.len()
    &&& side_valid(m, l.front_sidedef_i)
    &&& l.back_sidedef_i matches Some(b) ==> side_valid(m, b)
}

/// Whether every linedef refers only to vertices, sidedefs and sectors that exist.
pub open spec fn references_valid(m: DoomMap) -> bool {
    forall|i: int| 0 <= i < m.linedefs@.len() ==> linedef_valid(m, #[trigger] m.linedefs@[i])
}

/// The sector on side `side`.
pub open spec fn side_sector(m: DoomMap, side: u32) -> Sector {
    m.sectors@[m.sidedefs@[side as int].sector_i as int]
}

/// The position of vertex `i`.
pub open spec fn vertex_pos(m: DoomMap, i: u32) -> IVec2 {
    m.vertices@[i as int].0
}

impl DoomMap {
    fn side_is_valid(&self, side: u32) -> (r: bool)
        ensures
            r == side_valid(*self, side),
    {
        (side as usize) < self.sidedefs.len() && (self.sidedefs[side as usize].sector_i as usize) < self.sectors.len()
    }

    /// Whether every linedef refers only to vertices, sidedefs and sectors that exist.
    pub fn references_valid(&self) -> (r: bool)
        ensures
            r == references_valid(*self),
    {
        let mut i: usize = 0;
        while i < self.linedefs.len()
            invariant
                i <= self.linedefs@.len(),
                forall|k: int| 0 <= k < i ==> linedef_valid(*self, #[trigger] self.linedefs@[k]),
            decreases self.linedefs@.len() - i,
        {
            let l = self.linedefs[i];
            let back_ok = match l.back_sidedef_i {
                Some(b) => self.side_is_valid(b),
                None => true,
            };
            if !((l.start_vertex_i as usize) < self.vertices.len() && (l.end_vertex_i as usize) < self.vertices.len()
                && self.side_is_valid(l.front_sidedef_i) && back_ok) {
                assert(!linedef_valid(*self, self.linedefs@[i as int]));
                return false;
            }
            i = i + 1;
        }
        true
    }
}

// ---------------------------------------------------------------- WALLS

/// A point in the renderer's space: `x` and `z` across the map, `y` up.
#[derive(Clone, Copy, Debug, PartialEq, Eq, Structural)]
pub struct IVec3 {
    pub x: i32,
    pub y: i32,
    pub z: i32,
}

/// What a wall quad is: the part of a two-sided line between two ceilings (drawn green),
/// between two floors (blue), or a one-sided line from floor to ceiling (red).
#[derive(Clone, Copy, Debug, PartialEq, Eq, Structural)]
pub enum WallKind {
    Upper,
    Lower,
    OneSided,
}

/// One wall quad: facing the viewer, `right` is its right edge and `left` its left one,
/// each from height `bottom` to `top`.
#[derive(Clone, Copy, Debug, PartialEq, Eq, Structural)]
pub struct WallQuad {
    pub right: IVec2,
    pub left: IVec2,
    pub top: i32,
    pub bottom: i32,
    pub kind: WallKind,
}

/// The walls of a map as a triangle mesh: four corners per quad, each with its quad's
/// kind, and two triangles (six indices into the corners) per quad.
#[derive(Clone, Debug)]
pub struct WallMesh {
    pub positions: Vec<IVec3>,
    pub kinds: Vec<WallKind>,
    pub indices: Vec<u32>,
}

/// The quads of one linedef. A one-sided line is a wall from its sector's floor to its
/// ceiling. A two-sided line has a wall where its sectors' ceilings differ and one where
/// their floors differ, each facing into the sector with the lower ceiling (or higher floor).
pub open spec fn linedef_quads(m: DoomMap, l: Linedef) -> Seq<WallQuad> {
    let s = vertex_pos(m, l.start_vertex_i);
    let e = vertex_pos(m, l.end_vertex_i);
    let front = side_sector(m, l.front_sidedef_i);
    match l.back_sidedef_i {
        Some(b) => {
            let back = side_sector(m, b);
            let upper = if front.ceiling_height == back.ceiling_height {
                Seq::<WallQuad>::empty()
            } else if front.ceiling_height > back.ceiling_height {
                seq![WallQuad { right: s, left: e, top: front.ceiling_height, bottom: back.ceiling_height, kind: WallKind::Upper }]
            } else {
                seq![WallQuad { right: e, left: s, top: back.ceiling_height, bottom: front.ceiling_height, kind: WallKind::Upper }]
            };
            let lower = if front.floor_height == back.floor_height {
                Seq::<WallQuad>::empty()
            } else if front.floor_height < back.floor_height {
                seq![WallQuad { right: s, left: e, top: back.floor_height, bottom: front.floor_height, kind: WallKind::Lower }]
            } else {
                seq![WallQuad { right: e, left: s, top: front.floor_height, bottom: back.floor_height, kind: WallKind::Lower }]
            };
            upper + lower
        },
        None => seq![WallQuad { right: s, left: e, top: front.ceiling_height, bottom: front.floor_height, kind: WallKind::OneSided }],
    }
}

/// The quads of the first `n` linedefs, in order.
pub open spec fn wall_quads_upto(m: DoomMap, n: int) -> Seq<WallQuad>
    decreases n,
{
    if n <= 0 {
        Seq::empty()
    } else {
        wall_quads_upto(m, n - 1) + linedef_quads(m, m.linedefs@[n - 1])
    }
}

/// The quads of all linedefs, in order.
pub open spec fn wall_quads(m: DoomMap) -> Seq<WallQuad> {
    wall_quads_upto(m, m.linedefs@.len() as int)
}

/// Corner `j` of a quad: top right, bottom right, bottom left, top left.
pub open spec fn quad_corner(q: WallQuad, j: int) -> IVec3 {
    if j == 0 {
        IVec3 { x: q.right.x, y: q.top, z: q.right.y }
    } else if j == 1 {
        IVec3 { x: q.right.x, y: q.bottom, z: q.right.y }
    } else if j == 2 {
        IVec3 { x: q.left.x, y: q.bottom, z: q.left.y }
    } else {
        IVec3 { x: q.left.x, y: q.top, z: q.left.y }
    }
}

/// Which corner of its quad index `j` of the quad's six names: triangles (0, 1, 3) and (1, 2, 3).
pub open spec fn quad_index(j: int) -> int {
    if j == 0 {
        0
    } else if j == 1 {
        1
    } else if j == 2 {
        3
    } else if j == 3 {
        1
    } else if j == 4 {
        2
    } else {
        3
    }
}

/// Whether the mesh (`positions`, `kinds`, `indices`) is that of `quads`.
pub open spec fn mesh_of(positions: Seq<IVec3>, kinds: Seq<WallKind>, indices: Seq<u32>, quads: Seq<WallQuad>) -> bool {
    &&& positions.len() == 4 * quads.len()
    &&& kinds.len() == 4 * quads.len()
    &&& indices.len() == 6 * quads.len()
    &&& forall|i: int| 0 <= i < positions.len() ==> #[trigger] positions[i] == quad_corner(quads[i / 4], i % 4)
    &&& forall|i: int| 0 <= i < kinds.len() ==> #[trigger] kinds[i] == quads[i / 4].kind
    &&& forall|i: int| 0 <= i < indices.len() ==> #[trigger] indices[i] == 4 * (i / 6) + quad_index(i % 6)
}

impl WallMesh {
    /// Appends quad `q`: its four corners and its two triangles.
    fn add_quad(&mut self, q: WallQuad, Ghost(quads): Ghost<Seq<WallQuad>>)
        requires
            mesh_of(old(self).positions@, old(self).kinds@, old(self).indices@, quads),
            4 * (quads.len() + 1) <= 0x1_0000_0000,
        ensures
            mesh_of(final(self).positions@, final(self).kinds@, final(self).indices@, quads.push(q)),
    {
        let start_index = self.positions.len() as u32;
        self.positions.push(IVec3 { x: q.right.x, y: q.top, z: q.right.y });
        self.positions.push(IVec3 { x: q.right.x, y: q.bottom, z: q.right.y });
        self.positions.push(IVec3 { x: q.left.x, y: q.bottom, z: q.left.y });
        self.positions.push(IVec3 { x: q.left.x, y: q.top, z: q.left.y });
        self.kinds.push(q.kind);
        self.kinds.push(q.kind);
        self.kinds.push(q.kind);
        self.kinds.push(q.kind);
        self.indices.push(start_index + 0);
        self.indices.push(start_index + 1);
        self.indices.push(start_index + 3);
        self.indices.push(start_index + 1);
        self.indices.push(start_index + 2);
        self.indices.push(start_index + 3);
        proof {
            let nq = quads.push(q);
            let n = quads.len() as int;
            assert forall|i: int| 0 <= i < self.positions@.len() implies #[trigger] self.positions@[i] == quad_corner(nq[i / 4], i % 4) by {
                if i < 4 * n {
                    assert(old(self).positions@[i] == quad_corner(quads[i / 4], i % 4));
                }
            }
            assert forall|i: int| 0 <= i < self.kinds@.len() implies #[trigger] self.kinds@[i] == nq[i / 4].kind by {
                if i < 4 * n {
                    assert(old(self).kinds@[i] == quads[i / 4].kind);
                }
            }
            assert forall|i: int| 0 <= i < self.indices@.len() implies #[trigger] self.indices@[i] == 4 * (i / 6) + quad_index(i % 6) by {
                if i < 6 * n {
                    assert(old(self).indices@[i] == 4 * (i / 6) + quad_index(i % 6));
                }
            }
        }
    }
}

proof fn lemma_wall_quads_grow(m: DoomMap, i: int, n: int)
    requires
        0 <= i <= n,
    ensures
        wall_quads_upto(m, i).len() <= wall_quads_upto(m, n).len(),
    decreases n,
{
    if i < n {
        lemma_wall_quads_grow(m, i, n - 1);
    }
}

/// The walls of a linedef. A one-sided line gives one wall from its sector's floor to its
/// ceiling, facing from its start to its end vertex. A two-sided line gives an upper wall
/// exactly where its sectors' ceilings differ, from the lower ceiling up to the higher,
/// and then a lower wall exactly where their floors differ, from the lower floor up to the
/// higher; each faces from start to end where the front sector's ceiling is the higher (or
/// its floor the lower), else from end to start. No wall of a two-sided line is upside down.
pub proof fn lemma_linedef_walls(m: DoomMap, l: Linedef)
    ensures
        ({
            let s = vertex_pos(m, l.start_vertex_i);
            let e = vertex_pos(m, l.end_vertex_i);
            let f = side_sector(m, l.front_sidedef_i);
            let qs = linedef_quads(m, l);
            match l.back_sidedef_i {
                None => qs.len() == 1 && qs[0].kind == WallKind::OneSided && qs[0].top == f.ceiling_height
                    && qs[0].bottom == f.floor_height && qs[0].right == s && qs[0].left == e,
                Some(bi) => {
                    let b = side_sector(m, bi);
                    let has_upper = f.ceiling_height != b.ceiling_height;
                    let has_lower = f.floor_height != b.floor_height;
                    &&& qs.len() == (if has_upper { 1int } else { 0 }) + (if has_lower { 1int } else { 0 })
                    &&& forall|k: int| 0 <= k < qs.len() ==> (#[trigger] qs[k]).top > qs[k].bottom
                    &&& has_upper ==> {
                        let q = qs[0];
                        &&& q.kind == WallKind::Upper
                        &&& q.top >= f.ceiling_height && q.top >= b.ceiling_height
                        &&& (q.top == f.ceiling_height || q.top == b.ceiling_height)
                        &&& q.bottom <= f.ceiling_height && q.bottom <= b.ceiling_height
                        &&& (q.bottom == f.ceiling_height || q.bottom == b.ceiling_height)
                        &&& (q.right == s && q.left == e) || (q.right == e && q.left == s)
                        &&& (q.right == s && q.left == e) <== (f.ceiling_height > b.ceiling_height)
                        &&& (q.right == e && q.left == s) <== (f.ceiling_height < b.ceiling_height)
                    }
                    &&& has_lower ==> {
                        let q = qs[qs.len() - 1];
                        &&& q.kind == WallKind::Lower
                        &&& q.top >= f.floor_height && q.top >= b.floor_height
                        &&& (q.top == f.floor_height || q.top == b.floor_height)
                        &&& q.bottom <= f.floor_height && q.bottom <= b.floor_height
                        &&& (q.bottom == f.floor_height || q.bottom == b.floor_height)
                        &&& (q.right == s && q.left == e) <== (f.floor_height < b.floor_height)
                        &&& (q.right == e && q.left == s) <== (f.floor_height > b.floor_height)
                    }
                },
            }
        }),
{
}

/// A map has at most two wall quads per linedef.
pub proof fn lemma_wall_quads_count(m: DoomMap, n: int)
    requires
        0 <= n,
    ensures
        wall_quads_upto(m, n).len() <= 2 * n,
    decreases n,
{
    if n > 0 {
        lemma_wall_quads_count(m, n - 1);
    }
}

impl DoomMap {
    /// The mesh of the map's walls, the linedefs' quads in order.
    pub fn build_walls_mesh(&self) -> (r: WallMesh)
        requires
            references_valid(*self),
            4 * wall_quads(*self).len() <= 0x1_0000_0000,
        ensures
            mesh_of(r.positions@, r.kinds@, r.indices@, wall_quads(*self)),
    {
        let mut mesh = WallMesh { positions: Vec::new(), kinds: Vec::new(), indices: Vec::new() };
        let mut i: usize = 0;
        let n = self.linedefs.len();
        assert(mesh_of(mesh.positions@, mesh.kinds@, mesh.indices@, wall_quads_upto(*self, 0)));
        while i < n
            invariant
                i <= n,
                n == self.linedefs@.len(),
                references_valid(*self),
                4 * wall_quads(*self).len() <= 0x1_0000_0000,
                mesh_of(mesh.positions@, mesh.kinds@, mesh.indices@, wall_quads_upto(*self, i as int)),
            decreases n - i,
        {
            let linedef = self.linedefs[i];
            let ghost before = wall_quads_upto(*self, i as int);
            proof {
                lemma_wall_quads_grow(*self, i + 1, n as int);
                assert(linedef_valid(*self, self.linedefs@[i as int]));
            }
            let start_vertex = self.vertices[linedef.start_vertex_i as usize];
            let end_vertex = self.vertices[linedef.end_vertex_i as usize];
            let front_sidedef = self.sidedefs[linedef.front_sidedef_i as usize];
            let front_sector = self.sectors[front_sidedef.sector_i as usize];
            let ghost quads = linedef_quads(*self, linedef);
            if let Some(back_sidedef_i) = linedef.back_sidedef_i {
                // Two sided
                let back_sidedef = self.sidedefs[back_sidedef_i as usize];
                let back_sector = self.sectors[back_sidedef.sector_i as usize];
                let ghost mut done: Seq<WallQuad> = Seq::empty();
                // Top wall
                if front_sector.ceiling_height != back_sector.ceiling_height {
                    let q = if front_sector.ceiling_height > back_sector.ceiling_height {
                        WallQuad {
                            right: start_vertex.0,
                            left: end_vertex.0,
                            top: front_sector.ceiling_height,
                            bottom: back_sector.ceiling_height,
                            kind: WallKind::Upper,
                        }
                    } else {
                        WallQuad {
                            right: end_vertex.0,
                            left: start_vertex.0,
                            top: back_sector.ceiling_height,
                            bottom: front_sector.ceiling_height,
                            kind: WallKind::Upper,
                        }
                    };
                    mesh.add_quad(q, Ghost(before));
                    proof {
                        done = seq![q];
                    }
                }
                // Bottom wall
                if front_sector.floor_height != back_sector.floor_height {
                    let q = if front_sector.floor_height < back_sector.floor_height {
                        WallQuad {
                            right: start_vertex.0,
                            left: end_vertex.0,
                            top: back_sector.floor_height,
                            bottom: front_sector.floor_height,
                            kind: WallKind::Lower,
                        }
                    } else {
                        WallQuad {
                            right: end_vertex.0,
                            left: start_vertex.0,
                            top: front_sector.floor_height,
                            bottom: back_sector.floor_height,
                            kind: WallKind::Lower,
                        }
                    };
                    mesh.add_quad(q, Ghost(before + done));
                    proof {
                        assert((before + done).push(q) =~= before + done.push(q));
                        done = done.push(q);
                    }
                }
                assert(before + done =~= wall_quads_upto(*self, i + 1));
            } else {
                // One sided
                let q = WallQuad {
                    right: start_vertex.0,
                    left: end_vertex.0,
                    top: front_sector.ceiling_height,
                    bottom: front_sector.floor_height,
                    kind: WallKind::OneSided,
                };
                mesh.add_quad(q, Ghost(before));
                assert(before.push(q) =~= wall_quads_upto(*self, i + 1));
            }
            i = i + 1;
        }
        mesh
    }
}

// ---------------------------------------------------------------- SECTOR OUTLINES

/// A directed edge of a sector's outline, from one vertex to another.
#[derive(Clone, Copy, Debug, PartialEq, Eq, Structural)]
pub struct CollectedEdge {
    pub start_vertex_i: u32,
    pub end_vertex_i: u32,
}

/// The edges that linedef `l` gives sector `s`: from start to end where its front side
/// faces `s`, from end to start where its back side does.
pub open spec fn linedef_edges(m: DoomMap, l: Linedef, s: int) -> Seq<CollectedEdge> {
    let front = if m.sidedefs@[l.front_sidedef_i as int].sector_i == s {
        seq![CollectedEdge { start_vertex_i: l.start_vertex_i, end_vertex_i: l.end_vertex_i }]
    } else {
        Seq::<CollectedEdge>::empty()
    };
    let back = match l.back_sidedef_i {
        Some(b) => if m.sidedefs@[b as int].sector_i == s {
            seq![CollectedEdge { start_vertex_i: l.end_vertex_i, end_vertex_i: l.start_vertex_i }]
        } else {
            Seq::<CollectedEdge>::empty()
        },
        None => Seq::<CollectedEdge>::empty(),
    };
    front + back
}

/// The edges that the first `n` linedefs give sector `s`, in order.
pub open spec fn sector_edges_upto(m: DoomMap, s: int, n: int) -> Seq<CollectedEdge>
    decreases n,
{
    if n <= 0 {
        Seq::empty()
    } else {
        sector_edges_upto(m, s, n - 1) + linedef_edges(m, m.linedefs@[n - 1], s)
    }
}

/// The edges of sector `s`'s outline, in linedef order.
pub open spec fn sector_edges(m: DoomMap, s: int) -> Seq<CollectedEdge> {
    sector_edges_upto(m, s, m.linedefs@.len() as int)
}

/// One pass over the edges `base + r .. base + n` that extends the outline `outline`,
/// started at vertex `first`: an edge not yet visited that starts where the outline ends is
/// marked visited, and either closes the outline (it ends at `first`; the pass stops) or
/// adds its end vertex to it.
pub open spec fn follow_pass(edges: Seq<CollectedEdge>, visited: Seq<bool>, outline: Seq<u32>, first: u32, base: int, r: int, n: int) -> (Seq<bool>, Seq<u32>)
    decreases n - r,
{
    if r >= n {
        (visited, outline)
    } else if visited[base + r] || edges[base + r].start_vertex_i != outline.last() {
        follow_pass(edges, visited, outline, first, base, r + 1, n)
    } else if edges[base + r].end_vertex_i == first {
        (visited.update(base + r, true), outline)
    } else {
        follow_pass(edges, visited.update(base + r, true), outline.push(edges[base + r].end_vertex_i), first, base, r + 1, n)
    }
}

/// `k` passes of `follow_pass` over the edges `base .. base + n`.
pub open spec fn follow_passes(edges: Seq<CollectedEdge>, visited: Seq<bool>, outline: Seq<u32>, first: u32, base: int, k: int, n: int) -> (Seq<bool>, Seq<u32>)
    decreases k,
{
    if k <= 0 {
        (visited, outline)
    } else {
        let prev = follow_passes(edges, visited, outline, first, base, k - 1, n);
        follow_pass(edges, prev.0, prev.1, first, base, 0, n)
    }
}

/// The outlines traced from the edges `i ..`: each edge not yet visited starts a new
/// outline (its two vertices), which as many passes as there are later edges extend over
/// those later edges.
pub open spec fn trace_outlines(edges: Seq<CollectedEdge>, visited: Seq<bool>, i: int) -> Seq<Seq<u32>>
    decreases edges.len() - i,
{
    if i < 0 || i >= edges.len() {
        Seq::empty()
    } else if visited[i] {
        trace_outlines(edges, visited, i + 1)
    } else {
        let n = edges.len() - i - 1;
        let traced = follow_passes(
            edges,
            visited.update(i, true),
            seq![edges[i].start_vertex_i, edges[i].end_vertex_i],
            edges[i].start_vertex_i,
            i + 1,
            n,
            n,
        );
        seq![traced.1] + trace_outlines(edges, traced.0, i + 1)
    }
}

/// Tracing a non-empty list of edges, none of them visited yet, gives at least one outline.
proof fn lemma_trace_outlines_nonempty(edges: Seq<CollectedEdge>)
    requires
        edges.len() > 0,
    ensures
        trace_outlines(edges, none_visited(edges.len() as int), 0).len() > 0,
{
    let visited = none_visited(edges.len() as int);
    assert(!visited[0]);
    let n = edges.len() - 1;
    let traced = follow_passes(
        edges,
        visited.update(0, true),
        seq![edges[0].start_vertex_i, edges[0].end_vertex_i],
        edges[0].start_vertex_i,
        1,
        n,
        n,
    );
    assert(trace_outlines(edges, visited, 0) == seq![traced.1] + trace_outlines(edges, traced.0, 1));
}

/// Whether the edges form one simple loop, taken in the order `order` from edge 0 (`pos`
/// gives each edge's place in that order): each edge ends where the next one starts, the
/// last ends where the first starts, and no two edges start at the same vertex.
pub open spec fn simple_loop(edges: Seq<CollectedEdge>, order: Seq<int>, pos: Seq<int>) -> bool {
    let n = edges.len() as int;
    &&& n >= 2
    &&& order.len() == n
    &&& pos.len() == n
    &&& order[0] == 0
    &&& forall|t: int| 0 <= t < n ==> 0 <= #[trigger] order[t] < n && pos[order[t]] == t
    &&& forall|j: int| 0 <= j < n ==> 0 <= #[trigger] pos[j] < n && order[pos[j]] == j
    &&& forall|t: int| #![trigger order[t]]
        0 <= t < n - 1 ==> edges[order[t]].end_vertex_i == edges[order[t + 1]].start_vertex_i
    &&& edges[order[n - 1]].end_vertex_i == edges[order[0]].start_vertex_i
    &&& forall|j: int, k: int|
        0 <= j < n && 0 <= k < n && j != k ==> (#[trigger] edges[j]).start_vertex_i != (#[trigger] edges[k]).start_vertex_i
}

/// The outline that a loop of edges gives: the start vertex of each of its edges, in order.
pub open spec fn outline_of(edges: Seq<CollectedEdge>, lp: Seq<int>) -> Seq<u32> {
    Seq::new(lp.len(), |t: int| edges[lp[t]].start_vertex_i)
}

/// Whether `loops` splits the edges into simple loops: every edge lies on exactly one loop,
/// at the place (loop, position) that `place` gives it; each edge of a loop ends where the
/// next one starts and the last ends where the first starts; each loop has at least two
/// edges and starts with its lowest edge, and the loops come in the order of their first
/// edges; no two edges start at the same vertex.
pub open spec fn loop_partition(edges: Seq<CollectedEdge>, loops: Seq<Seq<int>>, place: Seq<(int, int)>) -> bool {
    let n = edges.len() as int;
    &&& place.len() == n
    &&& forall|q: int| 0 <= q < loops.len() ==> (#[trigger] loops[q]).len() >= 2
    &&& forall|q: int, t: int|
        0 <= q < loops.len() && 0 <= t < loops[q].len() ==> 0 <= #[trigger] loops[q][t] < n && place[loops[q][t]] == (q, t)
    &&& forall|j: int|
        0 <= j < n ==> 0 <= (#[trigger] place[j]).0 < loops.len() && 0 <= place[j].1 < loops[place[j].0].len()
            && loops[place[j].0][place[j].1] == j
    &&& forall|q: int, t: int|
        0 <= q < loops.len() && 0 <= t < loops[q].len() - 1 ==> edges[#[trigger] loops[q][t]].end_vertex_i
            == edges[loops[q][t + 1]].start_vertex_i
    &&& forall|q: int|
        0 <= q < loops.len() ==> edges[(#[trigger] loops[q])[loops[q].len() - 1]].end_vertex_i
            == edges[loops[q][0]].start_vertex_i
    &&& forall|q: int, t: int| 0 <= q < loops.len() && 0 <= t < loops[q].len() ==> loops[q][0] <= #[trigger] loops[q][t]
    &&& forall|q1: int, q2: int| 0 <= q1 < q2 < loops.len() ==> (#[trigger] loops[q1])[0] < (#[trigger] loops[q2])[0]
    &&& forall|j: int, k: int|
        0 <= j < n && 0 <= k < n && j != k ==> (#[trigger] edges[j]).start_vertex_i != (#[trigger] edges[k]).start_vertex_i
}

/// Tracing loop `q` part way: the loops before it and its first `c` edges are visited, and
/// the outline holds the start vertices of its edges up to the first one not yet visited.
spec fn cycle_state(edges: Seq<CollectedEdge>, loops: Seq<Seq<int>>, place: Seq<(int, int)>, q: int, visited: Seq<bool>, outline: Seq<u32>, c: int) -> bool {
    let n = edges.len() as int;
    let len = loops[q].len() as int;
    &&& 1 <= c <= len
    &&& visited.len() == n
    &&& forall|j: int| 0 <= j < n ==> (#[trigger] visited[j] <==> (place[j].0 < q || (place[j].0 == q && place[j].1 < c)))
    &&& outline == outline_of(edges, loops[q].take(if c < len { c + 1 } else { len }))
}

proof fn lemma_cycle_pass(edges: Seq<CollectedEdge>, loops: Seq<Seq<int>>, place: Seq<(int, int)>, q: int, visited: Seq<bool>, outline: Seq<u32>, c: int, r: int) -> (c2: int)
    requires
        loop_partition(edges, loops, place),
        0 <= q < loops.len(),
        cycle_state(edges, loops, place, q, visited, outline, c),
        0 <= r <= edges.len() - loops[q][0] - 1,
    ensures
        ({
            let i = loops[q][0];
            let res = follow_pass(edges, visited, outline, edges[i].start_vertex_i, i + 1, r, edges.len() - i - 1);
            &&& cycle_state(edges, loops, place, q, res.0, res.1, c2)
            &&& c2 >= c
            &&& (c < loops[q].len() && loops[q][c] - (i + 1) >= r) ==> c2 > c
        }),
    decreases edges.len() - r,
{
    let n = edges.len() as int;
    let lp = loops[q];
    let len = lp.len() as int;
    let i = lp[0];
    let nn = n - i - 1;
    let first = edges[i].start_vertex_i;
    assert(0 <= lp[0] < n);
    if c < len {
        assert(0 <= lp[c] < n && place[lp[c]] == (q, c));
    }
    if r >= nn {
        c
    } else {
        let j = i + 1 + r;
        assert(0 <= place[j].0 < loops.len() && loops[place[j].0][place[j].1] == j);
        let last_t = if c < len { c } else { len - 1 };
        assert(0 <= lp[last_t] < n && place[lp[last_t]] == (q, last_t));
        assert(outline.last() == edges[lp[last_t]].start_vertex_i);
        if visited[j] || edges[j].start_vertex_i != outline.last() {
            if c < len && lp[c] == j {
                assert(!visited[j]);
            }
            lemma_cycle_pass(edges, loops, place, q, visited, outline, c, r + 1)
        } else {
            if j != lp[last_t] {
                assert(edges[j].start_vertex_i != edges[lp[last_t]].start_vertex_i);
            }
            assert(j == lp[last_t]);
            assert(c < len);
            assert(place[lp[0]] == (q, 0int));
            if c < len - 1 {
                assert(edges[lp[c]].end_vertex_i == edges[lp[c + 1]].start_vertex_i);
                assert(0 <= lp[c + 1] < n && place[lp[c + 1]] == (q, c + 1));
                assert(lp[c + 1] != lp[0]);
                assert(edges[lp[c + 1]].start_vertex_i != edges[lp[0]].start_vertex_i);
                let v2 = visited.update(j, true);
                let o2 = outline.push(edges[j].end_vertex_i);
                assert(o2 =~= outline_of(edges, lp.take(c + 2)));
                assert forall|jj: int| 0 <= jj < n implies (#[trigger] v2[jj] <==> (place[jj].0 < q || (place[jj].0 == q
                    && place[jj].1 < c + 1))) by {
                    if jj != j {
                        assert(v2[jj] == visited[jj]);
                        assert(0 <= place[jj].0 < loops.len() && loops[place[jj].0][place[jj].1] == jj);
                    }
                }
                lemma_cycle_pass(edges, loops, place, q, v2, o2, c + 1, r + 1)
            } else {
                let v2 = visited.update(j, true);
                assert forall|jj: int| 0 <= jj < n implies (#[trigger] v2[jj] <==> (place[jj].0 < q || (place[jj].0 == q
                    && place[jj].1 < len))) by {
                    assert(0 <= place[jj].0 < loops.len() && 0 <= place[jj].1 < loops[place[jj].0].len()
                        && loops[place[jj].0][place[jj].1] == jj);
                    if jj != j {
                        assert(v2[jj] == visited[jj]);
                    }
                }
                len
            }
        }
    }
}

proof fn lemma_cycle_passes(edges: Seq<CollectedEdge>, loops: Seq<Seq<int>>, place: Seq<(int, int)>, q: int, visited: Seq<bool>, outline: Seq<u32>, c: int, k: int) -> (c2: int)
    requires
        loop_partition(edges, loops, place),
        0 <= q < loops.len(),
        cycle_state(edges, loops, place, q, visited, outline, c),
        0 <= k,
    ensures
        ({
            let i = loops[q][0];
            let res = follow_passes(edges, visited, outline, edges[i].start_vertex_i, i + 1, k, edges.len() - i - 1);
            &&& cycle_state(edges, loops, place, q, res.0, res.1, c2)
            &&& c2 >= c + k || c2 == loops[q].len()
        }),
    decreases k,
{
    if k == 0 {
        c
    } else {
        let lp = loops[q];
        let i = lp[0];
        let c1 = lemma_cycle_passes(edges, loops, place, q, visited, outline, c, k - 1);
        let prev = follow_passes(edges, visited, outline, edges[i].start_vertex_i, i + 1, k - 1, edges.len() - i - 1);
        assert(0 <= lp[0] < edges.len() && place[lp[0]] == (q, 0int));
        if c1 < lp.len() {
            assert(lp[0] <= lp[c1] && place[lp[c1]] == (q, c1));
        }
        lemma_cycle_pass(edges, loops, place, q, prev.0, prev.1, c1, 0)
    }
}

/// Distinct integers from the range `lo .. hi` number at most `hi - lo`.
proof fn lemma_distinct_in_range(s: Seq<int>, lo: int, hi: int)
    requires
        s.no_duplicates(),
        lo <= hi,
        forall|t: int| 0 <= t < s.len() ==> lo <= #[trigger] s[t] < hi,
    ensures
        s.len() <= hi - lo,
{
    s.unique_seq_to_set();
    vstd::set_lib::lemma_int_range(lo, hi);
    assert forall|x: int| s.to_set().contains(x) implies vstd::set_lib::set_int_range(lo, hi).contains(x) by {
        let t = choose|t: int| 0 <= t < s.len() && s[t] == x;
    }
    vstd::set_lib::lemma_len_subset(s.to_set(), vstd::set_lib::set_int_range(lo, hi));
}

proof fn lemma_trace_partition(edges: Seq<CollectedEdge>, loops: Seq<Seq<int>>, place: Seq<(int, int)>, q: int, visited: Seq<bool>, i: int)
    requires
        loop_partition(edges, loops, place),
        0 <= q <= loops.len(),
        visited.len() == edges.len(),
        forall|j: int| 0 <= j < edges.len() ==> (#[trigger] visited[j] <==> place[j].0 < q),
        0 <= i,
        q < loops.len() ==> i <= loops[q][0],
        q == loops.len() ==> i <= edges.len(),
    ensures
        trace_outlines(edges, visited, i) == Seq::new((loops.len() - q) as nat, |u: int| outline_of(edges, loops[q + u])),
    decreases edges.len() - i,
{
    let n = edges.len() as int;
    if q < loops.len() {
        assert(0 <= loops[q][0] < n && place[loops[q][0]] == (q, 0int));
    }
    if i >= n {
        assert(Seq::new((loops.len() - q) as nat, |u: int| outline_of(edges, loops[q + u])) =~= Seq::<Seq<u32>>::empty());
    } else {
        let qi = place[i].0;
        let ti = place[i].1;
        assert(0 <= qi < loops.len() && 0 <= ti < loops[qi].len() && loops[qi][ti] == i);
        assert(loops[qi][0] <= loops[qi][ti]);
        if visited[i] {
            lemma_trace_partition(edges, loops, place, q, visited, i + 1);
        } else {
            // the first edge not yet visited is the first edge of loop `q`
            if qi > q {
                assert(loops[q][0] < loops[qi][0]);
            }
            assert(qi == q);
            assert(i == loops[q][0]);
            assert(ti == 0);
            let lp = loops[q];
            let len = lp.len() as int;
            let v1 = visited.update(i, true);
            let o1 = seq![edges[i].start_vertex_i, edges[i].end_vertex_i];
            assert(edges[lp[0]].end_vertex_i == edges[lp[1]].start_vertex_i);
            assert(o1 =~= outline_of(edges, lp.take(2)));
            assert forall|j: int| 0 <= j < n implies (#[trigger] v1[j] <==> (place[j].0 < q || (place[j].0 == q
                && place[j].1 < 1))) by {
                assert(0 <= place[j].0 < loops.len() && 0 <= place[j].1 < loops[place[j].0].len()
                    && loops[place[j].0][place[j].1] == j);
                if j != i {
                    assert(v1[j] == visited[j]);
                }
            }
            let nn = n - i - 1;
            let c2 = lemma_cycle_passes(edges, loops, place, q, v1, o1, 1, nn);
            let traced = follow_passes(edges, v1, o1, edges[i].start_vertex_i, i + 1, nn, nn);
            if c2 < len {
                // the loop's first c2 + 1 edges are distinct edges from i .. n
                let sub = lp.take(c2 + 1);
                assert forall|a: int, b: int| 0 <= a < sub.len() && 0 <= b < sub.len() && a != b implies sub[a] != sub[b] by {
                    assert(place[lp[a]] == (q, a) && place[lp[b]] == (q, b));
                }
                assert forall|t: int| 0 <= t < sub.len() implies i <= #[trigger] sub[t] < n by {
                    assert(lp[0] <= lp[t] && 0 <= lp[t] < n);
                }
                lemma_distinct_in_range(sub, i, n);
            }
            assert(c2 == len);
            assert(traced.1 =~= outline_of(edges, lp));
            assert forall|j: int| 0 <= j < n implies (#[trigger] traced.0[j] <==> place[j].0 < q + 1) by {
                assert(0 <= place[j].0 < loops.len() && 0 <= place[j].1 < loops[place[j].0].len());
            }
            if q + 1 < loops.len() {
                assert(loops[q][0] < loops[q + 1][0]);
            }
            lemma_trace_partition(edges, loops, place, q + 1, traced.0, i + 1);
            assert(trace_outlines(edges, visited, i) == seq![traced.1] + trace_outlines(edges, traced.0, i + 1));
            assert(seq![traced.1] + Seq::new((loops.len() - (q + 1)) as nat, |u: int| outline_of(edges, loops[q + 1 + u]))
                =~= Seq::new((loops.len() - q) as nat, |u: int| outline_of(edges, loops[q + u])));
        }
    }
}

/// Edges that split into simple loops are traced loop by loop: one closed outline per loop,
/// the start vertices of its edges in the loop's order from its lowest edge, the loops in
/// the order of their lowest edges. So every edge lies on exactly one outline, and each
/// outline closes: an edge runs from its last vertex back to its first.
pub proof fn lemma_loops_traced(edges: Seq<CollectedEdge>, loops: Seq<Seq<int>>, place: Seq<(int, int)>)
    requires
        loop_partition(edges, loops, place),
    ensures
        trace_outlines(edges, none_visited(edges.len() as int), 0) == Seq::new(loops.len(), |q: int| outline_of(edges, loops[q])),
{
    lemma_trace_partition(edges, loops, place, 0, none_visited(edges.len() as int), 0);
    assert(Seq::new((loops.len() - 0) as nat, |u: int| outline_of(edges, loops[0 + u])) =~= Seq::new(loops.len(), |q: int| outline_of(edges, loops[q])));
}

/// A sector whose edges split into simple loops has one outline per loop: the outlines of
/// the loops, the outer one moved to the front.
pub proof fn lemma_loops_sector(m: DoomMap, s: int, loops: Seq<Seq<int>>, place: Seq<(int, int)>)
    requires
        loop_partition(sector_edges(m, s), loops, place),
    ensures
        ({
            let traced = Seq::new(loops.len(), |q: int| outline_of(sector_edges(m, s), loops[q]));
            &&& spec_sector_loops(m, s) == swap_first(traced, outer_outline(m, traced))
            &&& loops.len() > 0 ==> 0 <= outer_outline(m, traced) < loops.len()
            &&& loops.len() > 0 ==> spec_sector_loops(m, s).len() == loops.len()
        }),
{
    let edges = sector_edges(m, s);
    lemma_loops_traced(edges, loops, place);
    let outlines = trace_outlines(edges, none_visited(edges.len() as int), 0);
    if loops.len() > 0 {
        lemma_outer_in_range(m, outlines, outlines.len() as int);
        let o = outer_outline(m, outlines);
        assert(0 <= o < loops.len());
    }
}

/// Edges that form one simple loop, taken in the order `order` from edge 0, are traced as
/// one closed outline: the start vertices of all the edges in the loop's order, whatever
/// order the edges come in.
pub proof fn lemma_simple_loop_traced(edges: Seq<CollectedEdge>, order: Seq<int>, pos: Seq<int>)
    requires
        simple_loop(edges, order, pos),
    ensures
        trace_outlines(edges, none_visited(edges.len() as int), 0) == seq![outline_of(edges, order)],
{
    let n = edges.len() as int;
    let loops = seq![order];
    let place = Seq::new(n as nat, |j: int| (0int, pos[j]));
    assert(order[0] == 0 && pos[0] == 0);
    assert forall|t: int| 0 <= t < n implies loops[0][0] <= #[trigger] loops[0][t] by {
        assert(0 <= order[t] < n);
    }
    assert forall|j: int| 0 <= j < n implies 0 <= (#[trigger] place[j]).0 < loops.len() && 0 <= place[j].1
        < loops[place[j].0].len() && loops[place[j].0][place[j].1] == j by {
        assert(0 <= pos[j] < n && order[pos[j]] == j);
    }
    assert forall|q: int, t: int| 0 <= q < loops.len() && 0 <= t < loops[q].len() - 1 implies edges[#[trigger] loops[q][t]].end_vertex_i
        == edges[loops[q][t + 1]].start_vertex_i by {
        assert(order[t] == loops[q][t]);
    }
    assert(loop_partition(edges, loops, place));
    lemma_loops_traced(edges, loops, place);
    assert(Seq::new(loops.len(), |q: int| outline_of(edges, loops[q])) =~= seq![outline_of(edges, order)]);
}

/// A sector whose edges form one simple loop has exactly one outline: the start vertices
/// of its edges in the loop's order, as many as it has edges.
pub proof fn lemma_simple_loop_sector(m: DoomMap, s: int, order: Seq<int>, pos: Seq<int>)
    requires
        simple_loop(sector_edges(m, s), order, pos),
    ensures
        spec_sector_loops(m, s) == seq![outline_of(sector_edges(m, s), order)],
        spec_sector_loops(m, s)[0].len() == sector_edges(m, s).len(),
{
    let edges = sector_edges(m, s);
    lemma_simple_loop_traced(edges, order, pos);
    let outlines = trace_outlines(edges, none_visited(edges.len() as int), 0);
    assert(outer_upto(m, outlines, 0).1 == 0);
    assert(outer_outline(m, outlines) == 0);
    assert(swap_first(outlines, 0) =~= outlines);
}

/// No edge visited.
pub open spec fn none_visited(n: int) -> Seq<bool> {
    Seq::new(n as nat, |i: int| false)
}

/// Whether `a` lies at least as far as `b` along both axes.
pub open spec fn more_extreme(a: IVec2, b: IVec2) -> bool {
    a.x >= b.x && a.y >= b.y
}

/// The most extreme of the first `n` vertices of `outline`: scanning in order, a vertex
/// replaces the one kept so far unless the kept one is at least as far along both axes.
pub open spec fn extreme_upto(m: DoomMap, outline: Seq<u32>, n: int) -> IVec2
    decreases n,
{
    if n <= 1 {
        vertex_pos(m, outline[0])
    } else {
        let kept = extreme_upto(m, outline, n - 1);
        let next = vertex_pos(m, outline[n - 1]);
        if more_extreme(kept, next) {
            kept
        } else {
            next
        }
    }
}

/// The most extreme vertex of an outline.
pub open spec fn outline_extreme(m: DoomMap, outline: Seq<u32>) -> IVec2 {
    extreme_upto(m, outline, outline.len() as int)
}

/// Over the first `n` outlines: the most extreme point so far (starting from the least
/// point of the grid) and the position of the outline it came from; an outline whose
/// extreme point is at least as far along both axes takes over.
pub open spec fn outer_upto(m: DoomMap, outlines: Seq<Seq<u32>>, n: int) -> (IVec2, int)
    decreases n,
{
    if n <= 0 {
        (IVec2 { x: i32::MIN, y: i32::MIN }, 0)
    } else {
        let prev = outer_upto(m, outlines, n - 1);
        let e = outline_extreme(m, outlines[n - 1]);
        if more_extreme(e, prev.0) {
            (e, n - 1)
        } else {
            prev
        }
    }
}

/// The position of the outer outline: the one with the most extreme vertex.
pub open spec fn outer_outline(m: DoomMap, outlines: Seq<Seq<u32>>) -> int {
    outer_upto(m, outlines, outlines.len() as int).1
}

/// `s` with the items at `0` and `j` exchanged.
pub open spec fn swap_first(s: Seq<Seq<u32>>, j: int) -> Seq<Seq<u32>> {
    s.update(0, s[j]).update(j, s[0])
}

/// The outlines of sector `s` (each a list of vertex positions in order), the outer one first.
pub open spec fn spec_sector_loops(m: DoomMap, s: int) -> Seq<Seq<u32>> {
    let edges = sector_edges(m, s);
    let outlines = trace_outlines(edges, none_visited(edges.len() as int), 0);
    swap_first(outlines, outer_outline(m, outlines))
}

/// The views of a list of outlines.
pub open spec fn outline_views(v: Seq<Vec<u32>>) -> Seq<Seq<u32>> {
    v.map_values(|o: Vec<u32>| o@)
}

/// Whether every edge's vertices are below `v`.
pub open spec fn edges_below(edges: Seq<CollectedEdge>, v: int) -> bool {
    forall|j: int| 0 <= j < edges.len() ==> (#[trigger] edges[j]).start_vertex_i < v && edges[j].end_vertex_i < v
}

/// Whether every vertex of an outline is below `v`.
pub open spec fn outline_below(outline: Seq<u32>, v: int) -> bool {
    forall|k: int| 0 <= k < outline.len() ==> #[trigger] outline[k] < v
}

/// Whether some edge runs from `a` to `b`.
pub open spec fn is_edge(edges: Seq<CollectedEdge>, a: u32, b: u32) -> bool {
    exists|j: int| 0 <= j < edges.len() && #[trigger] edges[j] == (CollectedEdge { start_vertex_i: a, end_vertex_i: b })
}

/// Whether each two consecutive vertices of an outline are joined by an edge, in that direction.
pub open spec fn chained(edges: Seq<CollectedEdge>, outline: Seq<u32>) -> bool {
    forall|k: int| 0 <= k < outline.len() - 1 ==> is_edge(edges, #[trigger] outline[k], outline[k + 1])
}

proof fn lemma_follow_pass(edges: Seq<CollectedEdge>, visited: Seq<bool>, outline: Seq<u32>, first: u32, base: int, r: int, n: int, v: int)
    requires
        0 <= base,
        0 <= r,
        base + n <= edges.len(),
        visited.len() == edges.len(),
        outline.len() >= 1,
    ensures
        ({
            let res = follow_pass(edges, visited, outline, first, base, r, n);
            &&& res.0.len() == edges.len()
            &&& res.1.len() >= outline.len()
            &&& outline_below(outline, v) && edges_below(edges, v) ==> outline_below(res.1, v)
            &&& chained(edges, outline) ==> chained(edges, res.1)
        }),
    decreases n - r,
{
    if r < n {
        let e = edges[base + r];
        if visited[base + r] || e.start_vertex_i != outline.last() {
            lemma_follow_pass(edges, visited, outline, first, base, r + 1, n, v);
        } else if e.end_vertex_i != first {
            let o2 = outline.push(e.end_vertex_i);
            assert(outline_below(outline, v) && edges_below(edges, v) ==> outline_below(o2, v)) by {
                if outline_below(outline, v) && edges_below(edges, v) {
                    assert forall|k: int| 0 <= k < o2.len() implies #[trigger] o2[k] < v by {
                        if k < outline.len() {
                            assert(o2[k] == outline[k]);
                        } else {
                            assert(edges[base + r].end_vertex_i < v);
                        }
                    }
                }
            }
            assert(chained(edges, outline) ==> chained(edges, o2)) by {
                if chained(edges, outline) {
                    assert forall|k: int| 0 <= k < o2.len() - 1 implies is_edge(edges, #[trigger] o2[k], o2[k + 1]) by {
                        if k < outline.len() - 1 {
                            assert(o2[k] == outline[k] && o2[k + 1] == outline[k + 1]);
                            assert(is_edge(edges, outline[k], outline[k + 1]));
                        } else {
                            assert(o2[k] == outline.last());
                            assert(edges[base + r] == (CollectedEdge { start_vertex_i: o2[k], end_vertex_i: o2[k + 1] }));
                        }
                    }
                }
            }
            lemma_follow_pass(edges, visited.update(base + r, true), o2, first, base, r + 1, n, v);
        }
    }
}

proof fn lemma_follow_passes(edges: Seq<CollectedEdge>, visited: Seq<bool>, outline: Seq<u32>, first: u32, base: int, k: int, n: int, v: int)
    requires
        0 <= base,
        base + n <= edges.len(),
        visited.len() == edges.len(),
        outline.len() >= 1,
    ensures
        ({
            let res = follow_passes(edges, visited, outline, first, base, k, n);
            &&& res.0.len() == edges.len()
            &&& res.1.len() >= outline.len()
            &&& outline_below(outline, v) && edges_below(edges, v) ==> outline_below(res.1, v)
            &&& chained(edges, outline) ==> chained(edges, res.1)
        }),
    decreases k,
{
    if k > 0 {
        lemma_follow_passes(edges, visited, outline, first, base, k - 1, n, v);
        let prev = follow_passes(edges, visited, outline, first, base, k - 1, n);
        lemma_follow_pass(edges, prev.0, prev.1, first, base, 0, n, v);
    }
}

/// Every outline traced from a sector's edges has at least two vertices, runs along the
/// edges (each two consecutive vertices are joined by an edge in that direction), and has
/// only vertices that the edges have.
pub proof fn lemma_trace_outlines(edges: Seq<CollectedEdge>, visited: Seq<bool>, i: int, v: int)
    requires
        visited.len() == edges.len(),
    ensures
        forall|j: int| 0 <= j < trace_outlines(edges, visited, i).len() ==> {
            &&& (#[trigger] trace_outlines(edges, visited, i)[j]).len() >= 2
            &&& chained(edges, trace_outlines(edges, visited, i)[j])
            &&& edges_below(edges, v) ==> outline_below(trace_outlines(edges, visited, i)[j], v)
        },
    decreases edges.len() - i,
{
    if 0 <= i < edges.len() {
        if visited[i] {
            lemma_trace_outlines(edges, visited, i + 1, v);
            assert(trace_outlines(edges, visited, i) == trace_outlines(edges, visited, i + 1));
        } else {
            let n = edges.len() - i - 1;
            let start = seq![edges[i].start_vertex_i, edges[i].end_vertex_i];
            assert(chained(edges, start)) by {
                assert(edges[i] == (CollectedEdge { start_vertex_i: start[0], end_vertex_i: start[1] }));
            }
            lemma_follow_passes(edges, visited.update(i, true), start, edges[i].start_vertex_i, i + 1, n, n, v);
            let traced = follow_passes(edges, visited.update(i, true), start, edges[i].start_vertex_i, i + 1, n, n);
            lemma_trace_outlines(edges, traced.0, i + 1, v);
            let rest = trace_outlines(edges, traced.0, i + 1);
            assert(trace_outlines(edges, visited, i) == seq![traced.1] + rest);
            assert forall|j: int| 0 <= j < trace_outlines(edges, visited, i).len() implies {
                &&& (#[trigger] trace_outlines(edges, visited, i)[j]).len() >= 2
                &&& chained(edges, trace_outlines(edges, visited, i)[j])
                &&& edges_below(edges, v) ==> outline_below(trace_outlines(edges, visited, i)[j], v)
            } by {
                if j > 0 {
                    assert(trace_outlines(edges, visited, i)[j] == rest[j - 1]);
                } else {
                    if edges_below(edges, v) {
                        assert(edges[i].start_vertex_i < v && edges[i].end_vertex_i < v);
                        assert(outline_below(start, v));
                    }
                }
            }
        }
    }
}

/// Swaps the outlines at `a` and `b`.
fn swap_outlines(v: &mut Vec<Vec<u32>>, a: usize, b: usize)
    requires
        a < old(v)@.len(),
        b < old(v)@.len(),
    ensures
        final(v)@ == old(v)@.update(a as int, old(v)@[b as int]).update(b as int, old(v)@[a as int]),
{
    let ghost start = v@;
    if a == b {
        assert(start.update(a as int, start[b as int]).update(b as int, start[a as int]) =~= start);
        return;
    }
    let mut held: Vec<u32> = Vec::new();
    v.set_and_swap(a, &mut held);
    v.set_and_swap(b, &mut held);
    v.set_and_swap(a, &mut held);
    assert(v@ =~= start.update(a as int, start[b as int]).update(b as int, start[a as int]));
}

/// One pass of extending `outline` over the edges `base .. base + n` (see `follow_pass`).
fn extend_outline_pass(edges: &Vec<CollectedEdge>, visited: &mut Vec<bool>, outline: &mut Vec<u32>, first: u32, base: usize, n: usize)
    requires
        base + n <= edges.len(),
        old(visited)@.len() == edges@.len(),
        old(outline)@.len() >= 1,
    ensures
        (final(visited)@, final(outline)@) == follow_pass(edges@, old(visited)@, old(outline)@, first, base as int, 0, n as int),
{
    let ghost v0 = visited@;
    let ghost o0 = outline@;
    let mut r: usize = 0;
    while r < n
        invariant
            r <= n,
            v0 == old(visited)@,
            o0 == old(outline)@,
            base + n <= edges.len(),
            visited@.len() == edges@.len(),
            outline@.len() >= 1,
            follow_pass(edges@, v0, o0, first, base as int, 0, n as int) == follow_pass(edges@, visited@, outline@, first, base as int, r as int, n as int),
        decreases n - r,
    {
        let new_edge = edges[base + r];
        if visited[base + r] || new_edge.start_vertex_i != outline[outline.len() - 1] {
            // Visited, or not connected
            r = r + 1;
        } else {
            // New connected edge
            let ghost vb = visited@;
            visited.set(base + r, true);
            if new_edge.end_vertex_i == first {
                // Closed loop
                assert(follow_pass(edges@, vb, outline@, first, base as int, r as int, n as int) == (visited@, outline@));
                return;
            }
            outline.push(new_edge.end_vertex_i);
            r = r + 1;
        }
    }
}

/// The outlines traced from a sector's edges (see `trace_outlines`).
fn trace_sector_outlines(edges: &Vec<CollectedEdge>) -> (r: Vec<Vec<u32>>)
    ensures
        outline_views(r@) == trace_outlines(edges@, none_visited(edges@.len() as int), 0),
{
    let num_edges = edges.len();
    let mut visited: Vec<bool> = Vec::new();
    let mut k: usize = 0;
    while k < num_edges
        invariant
            k <= num_edges,
            num_edges == edges@.len(),
            visited@ == none_visited(k as int),
        decreases num_edges - k,
    {
        visited.push(false);
        k = k + 1;
        assert(visited@ =~= none_visited(k as int));
    }
    let ghost all = trace_outlines(edges@, none_visited(num_edges as int), 0);
    let mut outlines: Vec<Vec<u32>> = Vec::new();
    let mut edge_i: usize = 0;
    assert(outline_views(outlines@) =~= Seq::<Seq<u32>>::empty());
    while edge_i < num_edges
        invariant
            edge_i <= num_edges,
            num_edges == edges@.len(),
            visited@.len() == num_edges,
            outline_views(outlines@) + trace_outlines(edges@, visited@, edge_i as int) == all,
        decreases num_edges - edge_i,
    {
        if visited[edge_i] {
            edge_i = edge_i + 1;
        } else {
            let start_edge = edges[edge_i];
            visited.set(edge_i, true);
            // Encountering new loop
            let mut new_loop: Vec<u32> = Vec::new();
            new_loop.push(start_edge.start_vertex_i);
            new_loop.push(start_edge.end_vertex_i);
            assert(new_loop@ =~= seq![start_edge.start_vertex_i, start_edge.end_vertex_i]);
            // Find all connected edges; n passes are enough
            let n = num_edges - edge_i - 1;
            let ghost v1 = visited@;
            let ghost o1 = new_loop@;
            let mut pass: usize = 0;
            while pass < n
                invariant
                    pass <= n,
                    n == num_edges - edge_i - 1,
                    edge_i < num_edges,
                    num_edges == edges@.len(),
                    visited@.len() == num_edges,
                    new_loop@.len() >= 1,
                    (visited@, new_loop@) == follow_passes(edges@, v1, o1, start_edge.start_vertex_i, edge_i + 1, pass as int, n as int),
                decreases n - pass,
            {
                proof {
                    lemma_follow_pass(edges@, visited@, new_loop@, start_edge.start_vertex_i, edge_i + 1, 0, n as int, 0);
                }
                extend_outline_pass(edges, &mut visited, &mut new_loop, start_edge.start_vertex_i, edge_i + 1, n);
                pass = pass + 1;
            }
            let ghost before = outlines@;
            outlines.push(new_loop);
            proof {
                assert(outline_views(outlines@) =~= outline_views(before).push(new_loop@));
                assert(outline_views(outlines@) + trace_outlines(edges@, visited@, edge_i + 1) =~= outline_views(before) + (
                seq![new_loop@] + trace_outlines(edges@, visited@, edge_i + 1)));
            }
            edge_i = edge_i + 1;
        }
    }
    assert(outline_views(outlines@) =~= all);
    outlines
}

/// Whether every sector has at least one edge, so that it has an outline.
pub open spec fn sectors_outlined(m: DoomMap) -> bool {
    forall|s: int| 0 <= s < m.sectors@.len() ==> #[trigger] sector_edges(m, s).len() > 0
}

proof fn lemma_sector_edges_below(m: DoomMap, s: int, n: int)
    requires
        references_valid(m),
        0 <= n <= m.linedefs@.len(),
    ensures
        edges_below(sector_edges_upto(m, s, n), m.vertices@.len() as int),
    decreases n,
{
    if n > 0 {
        lemma_sector_edges_below(m, s, n - 1);
        assert(linedef_valid(m, m.linedefs@[n - 1]));
        let prev = sector_edges_upto(m, s, n - 1);
        let more = linedef_edges(m, m.linedefs@[n - 1], s);
        let all = sector_edges_upto(m, s, n);
        assert(all == prev + more);
        assert forall|j: int| 0 <= j < all.len() implies (#[trigger] all[j]).start_vertex_i < m.vertices@.len()
            && all[j].end_vertex_i < m.vertices@.len() by {
            if j < prev.len() {
                assert(all[j] == prev[j]);
            } else {
                assert(all[j] == more[j - prev.len()]);
            }
        }
    }
}

impl DoomMap {
    /// The edges of every sector's outline (see `sector_edges`).
    fn collect_sector_edges(&self) -> (r: Vec<Vec<CollectedEdge>>)
        requires
            references_valid(*self),
        ensures
            r@.len() == self.sectors@.len(),
            forall|s: int| 0 <= s < r@.len() ==> (#[trigger] r@[s])@ == sector_edges(*self, s),
    {
        let num_sectors = self.sectors.len();
        let mut collected: Vec<Vec<CollectedEdge>> = Vec::new();
        let mut k: usize = 0;
        while k < num_sectors
            invariant
                k <= num_sectors,
                collected@.len() == k,
                forall|s: int| 0 <= s < k ==> (#[trigger] collected@[s])@ == Seq::<CollectedEdge>::empty(),
            decreases num_sectors - k,
        {
            collected.push(Vec::new());
            k = k + 1;
        }
        let mut i: usize = 0;
        while i < self.linedefs.len()
            invariant
                i <= self.linedefs@.len(),
                num_sectors == self.sectors@.len(),
                references_valid(*self),
                collected@.len() == num_sectors,
                forall|s: int| 0 <= s < num_sectors ==> (#[trigger] collected@[s])@ == sector_edges_upto(*self, s, i as int),
            decreases self.linedefs@.len() - i,
        {
            let linedef = self.linedefs[i];
            proof {
                assert(linedef_valid(*self, self.linedefs@[i as int]));
            }
            let ghost before = collected@;
            let front_sidedef = self.sidedefs[linedef.front_sidedef_i as usize];
            let front_sector_i = front_sidedef.sector_i as usize;
            collected[front_sector_i].push(
                CollectedEdge { start_vertex_i: linedef.start_vertex_i, end_vertex_i: linedef.end_vertex_i },
            );
            let ghost middle = collected@;
            if let Some(back_sidedef_i) = linedef.back_sidedef_i {
                let back_sidedef = self.sidedefs[back_sidedef_i as usize];
                let back_sector_i = back_sidedef.sector_i as usize;
                collected[back_sector_i].push(
                    CollectedEdge { start_vertex_i: linedef.end_vertex_i, end_vertex_i: linedef.start_vertex_i },
                );
            }
            proof {
                assert forall|s: int| 0 <= s < num_sectors implies (#[trigger] collected@[s])@ == sector_edges_upto(*self, s, i + 1) by {
                    assert(sector_edges_upto(*self, s, i + 1) == sector_edges_upto(*self, s, i as int) + linedef_edges(*self, linedef, s));
                    assert(before[s]@ == sector_edges_upto(*self, s, i as int));
                    if s == front_sector_i {
                        assert(middle[s]@ == before[s]@.push(CollectedEdge { start_vertex_i: linedef.start_vertex_i, end_vertex_i: linedef.end_vertex_i }));
                    } else {
                        assert(middle[s] == before[s]);
                    }
                    assert(collected@[s]@ =~= sector_edges_upto(*self, s, i + 1));
                }
            }
            i = i + 1;
        }
        collected
    }

    /// The most extreme vertex of an outline (see `outline_extreme`).
    fn outline_extreme_point(&self, outline: &Vec<u32>) -> (r: IVec2)
        requires
            outline@.len() >= 1,
            outline_below(outline@, self.vertices@.len() as int),
        ensures
            r == outline_extreme(*self, outline@),
    {
        let mut extreme = self.vertices[outline[0] as usize].0;
        let mut k: usize = 1;
        while k < outline.len()
            invariant
                1 <= k <= outline@.len(),
                outline_below(outline@, self.vertices@.len() as int),
                extreme == extreme_upto(*self, outline@, k as int),
            decreases outline@.len() - k,
        {
            let next = self.vertices[outline[k] as usize].0;
            if !(extreme.x >= next.x && extreme.y >= next.y) {
                extreme = next;
            }
            k = k + 1;
        }
        extreme
    }

    /// The position of the outer outline (see `outer_outline`).
    fn outer_outline_index(&self, outlines: &Vec<Vec<u32>>) -> (r: usize)
        requires
            forall|j: int| 0 <= j < outlines@.len() ==> (#[trigger] outlines@[j])@.len() >= 1 && outline_below(outlines@[j]@, self.vertices@.len() as int),
        ensures
            r == outer_outline(*self, outline_views(outlines@)),
            outlines@.len() > 0 ==> r < outlines@.len(),
    {
        let ghost views = outline_views(outlines@);
        let mut most_extreme = IVec2 { x: i32::MIN, y: i32::MIN };
        let mut outer_loop_i: usize = 0;
        let mut i: usize = 0;
        while i < outlines.len()
            invariant
                i <= outlines@.len(),
                views == outline_views(outlines@),
                forall|j: int| 0 <= j < outlines@.len() ==> (#[trigger] outlines@[j])@.len() >= 1 && outline_below(outlines@[j]@, self.vertices@.len() as int),
                (most_extreme, outer_loop_i as int) == outer_upto(*self, views, i as int),
                outer_loop_i <= i,
                i > 0 ==> outer_loop_i < i,
            decreases outlines@.len() - i,
        {
            let extreme = self.outline_extreme_point(&outlines[i]);
            assert(views[i as int] == outlines@[i as int]@);
            if extreme.x >= most_extreme.x && extreme.y >= most_extreme.y {
                most_extreme = extreme;
                outer_loop_i = i;
            }
            i = i + 1;
        }
        outer_loop_i
    }

    /// The outlines of every sector, each a list of vertex positions, the outer one first
    /// (see `spec_sector_loops`).
    #[verifier::spinoff_prover]
    pub fn sector_loops(&self) -> (r: Vec<Vec<Vec<u32>>>)
        requires
            references_valid(*self),
            sectors_outlined(*self),
        ensures
            r@.len() == self.sectors@.len(),
            forall|s: int| 0 <= s < r@.len() ==> outline_views((#[trigger] r@[s])@) == spec_sector_loops(*self, s),
    {
        let collected_sector_edges = self.collect_sector_edges();
        let num_sectors = self.sectors.len();
        let mut sector_loops_vec: Vec<Vec<Vec<u32>>> = Vec::new();
        let mut sector_i: usize = 0;
        while sector_i < num_sectors
            invariant
                sector_i <= num_sectors,
                num_sectors == self.sectors@.len(),
                references_valid(*self),
                sectors_outlined(*self),
                collected_sector_edges@.len() == num_sectors,
                forall|s: int| 0 <= s < num_sectors ==> (#[trigger] collected_sector_edges@[s])@ == sector_edges(*self, s),
                sector_loops_vec@.len() == sector_i,
                forall|s: int| 0 <= s < sector_i ==> outline_views((#[trigger] sector_loops_vec@[s])@) == spec_sector_loops(*self, s),
            decreases num_sectors - sector_i,
        {
            let edges = &collected_sector_edges[sector_i];
            let ghost es = sector_edges(*self, sector_i as int);
            assert(edges@ == es);
            let mut sector_loops = trace_sector_outlines(edges);
            proof {
                lemma_sector_edges_below(*self, sector_i as int, self.linedefs@.len() as int);
                lemma_trace_outlines(es, none_visited(es.len() as int), 0, self.vertices@.len() as int);
                assert(es.len() > 0);
                assert forall|j: int| 0 <= j < sector_loops@.len() implies (#[trigger] sector_loops@[j])@.len() >= 1
                    && outline_below(sector_loops@[j]@, self.vertices@.len() as int) by {
                    assert(outline_views(sector_loops@)[j] == sector_loops@[j]@);
                }
                lemma_trace_outlines_nonempty(es);
                assert(outline_views(sector_loops@).len() == sector_loops@.len());
                assert(sector_loops@.len() > 0);
            }
            // Find the outer loop, move it to the front
            let outer_loop_i = self.outer_outline_index(&sector_loops);
            let ghost traced = outline_views(sector_loops@);
            swap_outlines(&mut sector_loops, 0, outer_loop_i);
            assert(outline_views(sector_loops@) =~= swap_first(traced, outer_loop_i as int));
            sector_loops_vec.push(sector_loops);
            sector_i = sector_i + 1;
        }
        sector_loops_vec
    }
}

// ---------------------------------------------------------------- LAWS AND QUERIES

/// Every index of a wall mesh names one of its corners, a corner of the index's own quad.
pub proof fn lemma_mesh_indices_in_range(positions: Seq<IVec3>, kinds: Seq<WallKind>, indices: Seq<u32>, quads: Seq<WallQuad>)
    requires
        mesh_of(positions, kinds, indices, quads),
    ensures
        forall|i: int| 0 <= i < indices.len() ==> 4 * (i / 6) <= #[trigger] indices[i] < 4 * (i / 6) + 4,
        forall|i: int| 0 <= i < indices.len() ==> #[trigger] indices[i] < positions.len(),
{
    assert forall|i: int| 0 <= i < indices.len() implies #[trigger] indices[i] < positions.len() by {
        assert(indices[i] == 4 * (i / 6) + quad_index(i % 6));
        assert(i / 6 < quads.len());
    }
}

/// Whether position `p` lies at least as far as every vertex of every outline, along both axes.
pub open spec fn dominates_all(m: DoomMap, outlines: Seq<Seq<u32>>, p: IVec2) -> bool {
    forall|u: int, t: int|
        0 <= u < outlines.len() && 0 <= t < outlines[u].len() ==> more_extreme(p, #[trigger] vertex_pos(m, outlines[u][t]))
}

proof fn lemma_extreme_is_vertex(m: DoomMap, outline: Seq<u32>, n: int) -> (t: int)
    requires
        1 <= n <= outline.len(),
    ensures
        0 <= t < n,
        extreme_upto(m, outline, n) == vertex_pos(m, outline[t]),
    decreases n,
{
    if n <= 1 {
        0
    } else {
        let t1 = lemma_extreme_is_vertex(m, outline, n - 1);
        if more_extreme(extreme_upto(m, outline, n - 1), vertex_pos(m, outline[n - 1])) {
            t1
        } else {
            n - 1
        }
    }
}

proof fn lemma_extreme_dominant(m: DoomMap, outline: Seq<u32>, n: int, p: IVec2, t0: int)
    requires
        1 <= n <= outline.len(),
        0 <= t0 < n,
        vertex_pos(m, outline[t0]) == p,
        forall|t: int| 0 <= t < outline.len() ==> more_extreme(p, #[trigger] vertex_pos(m, outline[t])),
    ensures
        extreme_upto(m, outline, n) == p,
    decreases n,
{
    if n > 1 {
        let t1 = lemma_extreme_is_vertex(m, outline, n - 1);
        assert(more_extreme(p, vertex_pos(m, outline[t1])));
        assert(more_extreme(p, vertex_pos(m, outline[n - 1])));
        if t0 < n - 1 {
            lemma_extreme_dominant(m, outline, n - 1, p, t0);
        }
    }
}

proof fn lemma_outer_dominant(m: DoomMap, outlines: Seq<Seq<u32>>, n: int, p: IVec2, u0: int, t0: int)
    requires
        0 <= u0 < n <= outlines.len(),
        forall|u: int| 0 <= u < outlines.len() ==> (#[trigger] outlines[u]).len() >= 1,
        0 <= t0 < outlines[u0].len(),
        vertex_pos(m, outlines[u0][t0]) == p,
        dominates_all(m, outlines, p),
    ensures
        outer_upto(m, outlines, n).0 == p,
        0 <= outer_upto(m, outlines, n).1 < n,
        outline_extreme(m, outlines[outer_upto(m, outlines, n).1]) == p,
    decreases n,
{
    let e = outline_extreme(m, outlines[n - 1]);
    let te = lemma_extreme_is_vertex(m, outlines[n - 1], outlines[n - 1].len() as int);
    assert(more_extreme(p, vertex_pos(m, outlines[n - 1][te])));
    if u0 < n - 1 {
        lemma_outer_dominant(m, outlines, n - 1, p, u0, t0);
    } else {
        assert forall|t: int| 0 <= t < outlines[u0].len() implies more_extreme(p, #[trigger] vertex_pos(m, outlines[u0][t])) by {
            assert(more_extreme(p, vertex_pos(m, outlines[u0][t])));
        }
        lemma_extreme_dominant(m, outlines[u0], outlines[u0].len() as int, p, t0);
        lemma_outer_in_range(m, outlines, n - 1);
        if n - 1 > 0 {
            let prev = outer_upto(m, outlines, n - 1);
            lemma_outer_is_extreme(m, outlines, n - 1);
            let k = prev.1;
            let tk = lemma_extreme_is_vertex(m, outlines[k], outlines[k].len() as int);
            assert(more_extreme(p, vertex_pos(m, outlines[k][tk])));
        }
    }
}

proof fn lemma_outer_is_extreme(m: DoomMap, outlines: Seq<Seq<u32>>, n: int)
    requires
        0 < n <= outlines.len(),
    ensures
        outer_upto(m, outlines, n).0 == outline_extreme(m, outlines[outer_upto(m, outlines, n).1])
            || outer_upto(m, outlines, n).0 == (IVec2 { x: i32::MIN, y: i32::MIN }),
    decreases n,
{
    if n > 1 {
        lemma_outer_is_extreme(m, outlines, n - 1);
    } else {
        assert(outer_upto(m, outlines, 0) == (IVec2 { x: i32::MIN, y: i32::MIN }, 0int));
    }
}

/// The outer outline passes through the far corner: where a position lies at least as
/// far as every vertex of a sector's outlines along both axes and one of the outlines
/// passes through it, the outline that the sector's outlines start with passes through it.
pub proof fn lemma_outer_outline_first(m: DoomMap, s: int, p: IVec2, u0: int, t0: int)
    requires
        sector_edges(m, s).len() > 0,
        dominates_all(m, spec_sector_loops(m, s), p),
        0 <= u0 < spec_sector_loops(m, s).len(),
        0 <= t0 < spec_sector_loops(m, s)[u0].len(),
        vertex_pos(m, spec_sector_loops(m, s)[u0][t0]) == p,
    ensures
        exists|t: int| 0 <= t < spec_sector_loops(m, s)[0].len() && #[trigger] vertex_pos(m, spec_sector_loops(m, s)[0][t]) == p,
{
    let edges = sector_edges(m, s);
    let outlines = trace_outlines(edges, none_visited(edges.len() as int), 0);
    let swapped = spec_sector_loops(m, s);
    lemma_trace_outlines(edges, none_visited(edges.len() as int), 0, 0);
    lemma_outer_in_range(m, outlines, outlines.len() as int);
    let k = outer_outline(m, outlines);
    // the swap is a permutation of the traced outlines
    lemma_trace_outlines_nonempty(edges);
    assert(outlines.len() > 0);
    assert(swapped.len() == outlines.len());
    let u1 = if u0 == 0 { k } else if u0 == k { 0 } else { u0 };
    assert(swapped[u0] == outlines[u1]);
    assert forall|u: int, t: int| 0 <= u < outlines.len() && 0 <= t < outlines[u].len() implies more_extreme(p, #[trigger] vertex_pos(m, outlines[u][t])) by {
        let uu = if u == 0 { k } else if u == k { 0 } else { u };
        assert(swapped[uu] == outlines[u]);
        assert(more_extreme(p, vertex_pos(m, swapped[uu][t])));
    }
    assert forall|u: int| 0 <= u < outlines.len() implies (#[trigger] outlines[u]).len() >= 1 by {
        assert(outlines[u].len() >= 2);
    }
    lemma_outer_dominant(m, outlines, outlines.len() as int, p, u1, t0);
    let te = lemma_extreme_is_vertex(m, outlines[k], outlines[k].len() as int);
    assert(swapped[0] == outlines[k]);
    assert(vertex_pos(m, swapped[0][te]) == p);
}

/// Every outline of a sector has at least two vertices and runs along the sector's
/// edges: each two consecutive vertices are joined by one of its edges, in that direction;
/// the outer outline comes first.
pub proof fn lemma_sector_loops_follow_edges(m: DoomMap, s: int)
    requires
        sector_edges(m, s).len() > 0,
    ensures
        ({
            let edges = sector_edges(m, s);
            let outlines = trace_outlines(edges, none_visited(edges.len() as int), 0);
            &&& spec_sector_loops(m, s).len() == outlines.len()
            &&& spec_sector_loops(m, s)[0] == outlines[outer_outline(m, outlines)]
            &&& forall|j: int| 0 <= j < spec_sector_loops(m, s).len() ==> {
                &&& (#[trigger] spec_sector_loops(m, s)[j]).len() >= 2
                &&& chained(edges, spec_sector_loops(m, s)[j])
            }
        }),
{
    let edges = sector_edges(m, s);
    let outlines = trace_outlines(edges, none_visited(edges.len() as int), 0);
    lemma_trace_outlines(edges, none_visited(edges.len() as int), 0, 0);
    lemma_outer_in_range(m, outlines, outlines.len() as int);
    assert(!none_visited(edges.len() as int)[0]);
    assert(outlines.len() > 0);
    let k = outer_outline(m, outlines);
    let swapped = spec_sector_loops(m, s);
    assert forall|j: int| 0 <= j < swapped.len() implies {
        &&& (#[trigger] swapped[j]).len() >= 2
        &&& chained(edges, swapped[j])
    } by {
        if j == k {
            assert(swapped[j] == outlines[0]);
        } else if j == 0 {
            assert(swapped[j] == outlines[k]);
        } else {
            assert(swapped[j] == outlines[j]);
        }
    }
}

proof fn lemma_outer_in_range(m: DoomMap, outlines: Seq<Seq<u32>>, n: int)
    ensures
        n > 0 ==> 0 <= outer_upto(m, outlines, n).1 < n,
        n <= 0 ==> outer_upto(m, outlines, n).1 == 0,
    decreases n,
{
    if n > 0 {
        lemma_outer_in_range(m, outlines, n - 1);
    }
}

impl DoomMap {
    /// The first thing of type `thing_type` (type 1 is player one's start).
    pub fn find_thing(&self, thing_type: u32) -> (r: Option<Thing>)
        ensures
            r is None <==> forall|i: int| 0 <= i < self.things@.len() ==> (#[trigger] self.things@[i]).thing_type != thing_type,
            r matches Some(t) ==> exists|i: int| 0 <= i < self.things@.len() && t == #[trigger] self.things@[i]
                && t.thing_type == thing_type && forall|j: int| 0 <= j < i ==> (#[trigger] self.things@[j]).thing_type != thing_type,
    {
        let mut i: usize = 0;
        while i < self.things.len()
            invariant
                i <= self.things@.len(),
                forall|j: int| 0 <= j < i ==> (#[trigger] self.things@[j]).thing_type != thing_type,
            decreases self.things@.len() - i,
        {
            if self.things[i].thing_type == thing_type {
                return Some(self.things[i]);
            }
            i = i + 1;
        }
        None
    }

    /// Whether every sector has an edge, so that `sector_loops` may be called.
    pub fn every_sector_has_edges(&self) -> (r: bool)
        requires
            references_valid(*self),
        ensures
            r == sectors_outlined(*self),
    {
        let collected = self.collect_sector_edges();
        let mut s: usize = 0;
        while s < collected.len()
            invariant
                s <= collected@.len(),
                collected@.len() == self.sectors@.len(),
                forall|k: int| 0 <= k < collected@.len() ==> (#[trigger] collected@[k])@ == sector_edges(*self, k),
                forall|k: int| 0 <= k < s ==> #[trigger] sector_edges(*self, k).len() > 0,
            decreases collected@.len() - s,
        {
            if collected[s].len() == 0 {
                assert(sector_edges(*self, s as int).len() == 0);
                return false;
            }
            s = s + 1;
        }
        true
    }
}

} // verus!
