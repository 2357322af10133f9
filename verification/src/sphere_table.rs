//! The integer structure of the spherical direction table used by 3D bounds
//! summaries: a Class-I geodesic octahedron.
//!
//! Each of the octahedron's 8 faces is subdivided into a barycentric grid of
//! frequency `N_FREQ`. A grid vertex `(i, j, k)` with `i + j + k = N_FREQ` in
//! the octant with axis signs `(sx, sy, sz)` is the lattice point
//! `(sx * i, sy * j, sz * k)`; projected outward it becomes a sampled unit
//! direction. Vertices shared by several faces are the same lattice point, so
//! the sampled directions are exactly the lattice points `p` with
//! `|p.0| + |p.1| + |p.2| = N_FREQ`, and the negation of every sampled
//! direction is sampled too.

use vstd::prelude::*;

verus! {

/// Barycentric subdivision frequency.
pub const N_FREQ: i32 = 5;

/// A grid vertex as a lattice point; a zero coordinate carries no sign.
pub type DedupKey = (i32, i32, i32);

/// The three vertex indices of one small spherical triangle.
pub type TriangleVertices = (usize, usize, usize);

/// The two small triangles covering barycentric cell `(i, j)` of one face.
/// `down` is absent exactly on the last row of the face, `i + j == N_FREQ - 1`.
#[derive(Clone, Copy, Debug, PartialEq, Eq)]
pub struct CellTriangles {
    pub up: TriangleVertices,
    pub down: Option<TriangleVertices>,
}

pub open spec fn abs(x: int) -> int {
    if x < 0 {
        -x
    } else {
        x
    }
}

/// `p` is a lattice point of the octahedron surface `|x| + |y| + |z| = N_FREQ`.
pub open spec fn on_shell(p: DedupKey) -> bool {
    abs(p.0 as int) + abs(p.1 as int) + abs(p.2 as int) == N_FREQ
}

/// The axis signs of an octant: bit 0 of `octant` is `x >= 0`, bit 1 is
/// `y >= 0` and bit 2 is `z >= 0`.
pub open spec fn octant_sign_spec(octant: int) -> (i32, i32, i32) {
    (
        if octant % 2 == 1 { 1i32 } else { -1i32 },
        if (octant / 2) % 2 == 1 { 1i32 } else { -1i32 },
        if (octant / 4) % 2 == 1 { 1i32 } else { -1i32 },
    )
}

/// The key of grid vertex `(i, j, k)` in the octant with signs `(sx, sy, sz)`.
pub open spec fn key_spec(i: int, j: int, k: int, sx: int, sy: int, sz: int) -> DedupKey {
    (
        (if i == 0 { 0 } else { sx * i }) as i32,
        (if j == 0 { 0 } else { sy * j }) as i32,
        (if k == 0 { 0 } else { sz * k }) as i32,
    )
}

/// `(i, j)` indexes a grid vertex of a face (with `k = N_FREQ - i - j`).
pub open spec fn grid_ok(i: int, j: int) -> bool {
    0 <= i <= N_FREQ && 0 <= j <= N_FREQ - i
}

/// `p` is first generated at grid vertex `q = (octant, i, j)`: octants in
/// order, then `i`, then `j`.
pub open spec fn first_generated(p: DedupKey, q: (int, int, int)) -> bool {
    &&& 0 <= q.0 < 8
    &&& grid_ok(q.1, q.2)
    &&& grid_key(q.0, q.1, q.2) == p
    &&& forall|o2: int, i2: int, j2: int|
        0 <= o2 && grid_ok(i2, j2) && generated_before(o2, i2, j2, q.0, q.1, q.2) ==> #[trigger] grid_key(
            o2,
            i2,
            j2,
        ) != p
}

/// `keys` are in the order in which they are first generated.
pub open spec fn in_generation_order(keys: Seq<DedupKey>) -> bool {
    exists|pos: Seq<(int, int, int)>|
        #![trigger pos.len()]
        pos.len() == keys.len() && (forall|a: int| 0 <= a < keys.len() ==> first_generated(keys[a], #[trigger] pos[a]))
            && (forall|a: int, b: int|
            0 <= a < b < keys.len() ==> generated_before(
                (#[trigger] pos[a]).0,
                pos[a].1,
                pos[a].2,
                (#[trigger] pos[b]).0,
                pos[b].1,
                pos[b].2,
            ))
}

/// The key of grid vertex `(i, j, N_FREQ - i - j)` of `octant`.
pub open spec fn grid_key(octant: int, i: int, j: int) -> DedupKey {
    let s = octant_sign_spec(octant);
    key_spec(i, j, N_FREQ - i - j, s.0 as int, s.1 as int, s.2 as int)
}

/// The lattice point opposite `p`.
pub open spec fn negated(p: DedupKey) -> DedupKey {
    ((-p.0) as i32, (-p.1) as i32, (-p.2) as i32)
}

/// The index of grid vertex `(i, j)` of `octant` among the sampled keys.
pub open spec fn vertex_index(keys: Seq<DedupKey>, octant: int, i: int, j: int) -> usize {
    keys.index_of(grid_key(octant, i, j)) as usize
}

/// The triangles of cell `(i, j)` of `octant`, or `None` outside the face.
pub open spec fn cell_spec(keys: Seq<DedupKey>, octant: int, i: int, j: int) -> Option<CellTriangles> {
    if i + j > N_FREQ - 1 {
        None
    } else {
        Some(
            CellTriangles {
                up: (
                    vertex_index(keys, octant, i, j),
                    vertex_index(keys, octant, i + 1, j),
                    vertex_index(keys, octant, i, j + 1),
                ),
                down: if i + j < N_FREQ - 1 {
                    Some(
                        (
                            vertex_index(keys, octant, i + 1, j),
                            vertex_index(keys, octant, i, j + 1),
                            vertex_index(keys, octant, i + 1, j + 1),
                        ),
                    )
                } else {
                    None
                },
            },
        )
    }
}

/// The axis signs of `octant`.
pub fn octant_signs(octant: usize) -> (s: (i32, i32, i32))
    ensures
        s == octant_sign_spec(octant as int),
{
    let sx: i32 = if octant % 2 == 1 { 1 } else { -1 };
    let sy: i32 = if (octant / 2) % 2 == 1 { 1 } else { -1 };
    let sz: i32 = if (octant / 4) % 2 == 1 { 1 } else { -1 };
    (sx, sy, sz)
}

/// Sign-canonical key of grid vertex `(i, j, k)` in the octant with signs
/// `(sx, sy, sz)`: a zero index carries no sign, so vertices shared by
/// several faces get the same key.
pub fn signed_key(i: i32, j: i32, k: i32, sx: i32, sy: i32, sz: i32) -> (key: DedupKey)
    requires
        i32::MIN <= sx * i <= i32::MAX,
        i32::MIN <= sy * j <= i32::MAX,
        i32::MIN <= sz * k <= i32::MAX,
    ensures
        key == key_spec(i as int, j as int, k as int, sx as int, sy as int, sz as int),
{
    (
        if i == 0 { 0 } else { sx * i },
        if j == 0 { 0 } else { sy * j },
        if k == 0 { 0 } else { sz * k },
    )
}

/// The octant whose signs match the signs of `p` (zero counts as positive).
pub open spec fn octant_of(p: DedupKey) -> int {
    (if p.0 >= 0 { 1int } else { 0int }) + (if p.1 >= 0 { 2int } else { 0int }) + (if p.2 >= 0 {
        4int
    } else {
        0int
    })
}

/// Every grid vertex key lies on the shell.
pub proof fn lemma_grid_key_on_shell(octant: int, i: int, j: int)
    requires
        0 <= octant < 8,
        grid_ok(i, j),
    ensures
        on_shell(grid_key(octant, i, j)),
{
}

/// Every shell point is a grid vertex of the octant matching its signs.
pub proof fn lemma_shell_point_is_grid_key(p: DedupKey)
    requires
        on_shell(p),
    ensures
        0 <= octant_of(p) < 8,
        grid_ok(abs(p.0 as int), abs(p.1 as int)),
        grid_key(octant_of(p), abs(p.0 as int), abs(p.1 as int)) == p,
{
}

/// The antipodal octant generates the exact negated key of each grid vertex.
pub proof fn lemma_antipodal_octant_negates(octant: int, i: int, j: int)
    requires
        0 <= octant < 8,
        grid_ok(i, j),
    ensures
        grid_key(7 - octant, i, j) == negated(grid_key(octant, i, j)),
{
}

/// Index of `p` among `keys`, if present.
fn find_key(keys: &Vec<DedupKey>, p: DedupKey) -> (r: Option<usize>)
    ensures
        r matches Some(a) ==> a < keys@.len() && keys@[a as int] == p,
        r is None ==> !keys@.contains(p),
{
    let mut a: usize = 0;
    while a < keys.len()
        invariant
            0 <= a <= keys@.len(),
            forall|b: int| 0 <= b < a ==> keys@[b] != p,
        decreases keys@.len() - a,
    {
        let q = keys[a];
        if q.0 == p.0 && q.1 == p.1 && q.2 == p.2 {
            return Some(a);
        }
        a = a + 1;
    }
    None
}

proof fn lemma_index_of_unique(keys: Seq<DedupKey>, a: int)
    requires
        keys.no_duplicates(),
        0 <= a < keys.len(),
    ensures
        keys.index_of(keys[a]) == a,
{
    assert(keys.contains(keys[a]));
}

/// The sampled keys, their antipodal pairing and the triangles of every cell.
pub struct SphereTopology {
    keys: Vec<DedupKey>,
    antipode: Vec<usize>,
    octants: Vec<Vec<Option<CellTriangles>>>,
}

impl SphereTopology {
    pub closed spec fn spec_keys(&self) -> Seq<DedupKey> {
        self.keys@
    }

    pub closed spec fn spec_antipode(&self) -> Seq<usize> {
        self.antipode@
    }

    /// `spec_cells()[o][i * N_FREQ + j]` holds cell `(i, j)` of octant `o`.
    pub closed spec fn spec_cells(&self) -> Seq<Seq<Option<CellTriangles>>> {
        self.octants@.map_values(|v: Vec<Option<CellTriangles>>| v@)
    }

    /// The table is the geodesic octahedron of frequency `N_FREQ`.
    pub open spec fn wf(&self) -> bool {
        let keys = self.spec_keys();
        let anti = self.spec_antipode();
        let cells = self.spec_cells();
        &&& keys.no_duplicates()
        &&& in_generation_order(keys)
        &&& keys.len() <= usize::MAX
        &&& forall|p: DedupKey| keys.contains(p) <==> on_shell(p)
        &&& anti.len() == keys.len()
        &&& forall|a: int|
            0 <= a < keys.len() ==> #[trigger] anti[a] < keys.len() && keys[anti[a] as int]
                == negated(keys[a])
        &&& cells.len() == 8
        &&& forall|o: int| 0 <= o < 8 ==> (#[trigger] cells[o]).len() == N_FREQ * N_FREQ
        &&& forall|o: int, i: int, j: int|
            0 <= o < 8 && 0 <= i < N_FREQ && 0 <= j < N_FREQ ==> #[trigger] cells[o][i * N_FREQ + j]
                == cell_spec(keys, o, i, j)
    }

    /// The sampled direction keys, in order of first generation.
    pub fn keys(&self) -> (k: &Vec<DedupKey>)
        ensures
            k@ == self.spec_keys(),
    {
        &self.keys
    }

    /// `antipode()[a]` is the index of the key opposite `keys()[a]`.
    pub fn antipode(&self) -> (a: &Vec<usize>)
        ensures
            a@ == self.spec_antipode(),
    {
        &self.antipode
    }

    /// The cells of every octant, indexed `i * N_FREQ + j`.
    pub fn octants(&self) -> (o: &Vec<Vec<Option<CellTriangles>>>)
        ensures
            o@.map_values(|v: Vec<Option<CellTriangles>>| v@) == self.spec_cells(),
    {
        &self.octants
    }

    /// Builds the table: every grid vertex of every octant once, in octant,
    /// `i`, `j` order, keeping the first occurrence of each key.
    pub fn build() -> (t: SphereTopology)
        ensures
            t.wf(),
    {
        let keys = build_keys();
        let key_count = keys.len();
        let antipode = build_antipode(&keys);
        let mut octants: Vec<Vec<Option<CellTriangles>>> = Vec::new();
        let mut o: usize = 0;
        while o < 8
            invariant
                0 <= o <= 8,
                keys@.no_duplicates(),
                forall|p: DedupKey| keys@.contains(p) <==> on_shell(p),
                octants@.len() == o,
                forall|o2: int| 0 <= o2 < o ==> (#[trigger] octants@[o2])@.len() == N_FREQ * N_FREQ,
                forall|o2: int, i: int, j: int|
                    0 <= o2 < o && 0 <= i < N_FREQ && 0 <= j < N_FREQ ==> #[trigger] octants@[o2]@[i
                        * N_FREQ + j] == cell_spec(keys@, o2, i, j),
            decreases 8 - o,
        {
            let cells = build_octant_cells(&keys, o);
            octants.push(cells);
            o = o + 1;
        }
        let t = SphereTopology { keys, antipode, octants };
        proof {
            assert(t.keys@.len() == key_count);
            let cells = t.spec_cells();
            assert forall|o2: int| 0 <= o2 < 8 implies (#[trigger] cells[o2]).len() == N_FREQ
                * N_FREQ by {
                assert(cells[o2] == t.octants@[o2]@);
            }
            assert forall|o2: int, i: int, j: int|
                0 <= o2 < 8 && 0 <= i < N_FREQ && 0 <= j < N_FREQ implies #[trigger] cells[o2][i
                * N_FREQ + j] == cell_spec(t.keys@, o2, i, j) by {
                assert(cells[o2] == t.octants@[o2]@);
            }
        }
        t
    }
}

/// `(o2, i2, j2)` comes before `(o, i, j)` in generation order.
pub open spec fn generated_before(o2: int, i2: int, j2: int, o: int, i: int, j: int) -> bool {
    o2 < o || (o2 == o && (i2 < i || (i2 == i && j2 < j)))
}

fn build_keys() -> (keys: Vec<DedupKey>)
    ensures
        keys@.no_duplicates(),
        in_generation_order(keys@),
        forall|p: DedupKey| keys@.contains(p) <==> on_shell(p),
{
    let mut keys: Vec<DedupKey> = Vec::new();
    let ghost mut pos: Seq<(int, int, int)> = Seq::empty();
    let mut o: usize = 0;
    while o < 8
        invariant
            0 <= o <= 8,
            keys@.no_duplicates(),
            forall|p: DedupKey| keys@.contains(p) ==> on_shell(p),
            forall|o2: int, i2: int, j2: int|
                0 <= o2 < o && grid_ok(i2, j2) ==> keys@.contains(#[trigger] grid_key(o2, i2, j2)),
            pos.len() == keys@.len(),
                forall|a: int| 0 <= a < keys@.len() ==> first_generated(keys@[a], #[trigger] pos[a]),
                forall|a: int, b: int|
                    0 <= a < b < keys@.len() ==> generated_before(
                        (#[trigger] pos[a]).0,
                        pos[a].1,
                        pos[a].2,
                        (#[trigger] pos[b]).0,
                        pos[b].1,
                        pos[b].2,
                    ),
                forall|a: int| 0 <= a < keys@.len() ==> generated_before((#[trigger] pos[a]).0, pos[a].1, pos[a].2, o as int, 0, 0),
        decreases 8 - o,
    {
        let s = octant_signs(o);
        let mut i: i32 = 0;
        while i <= N_FREQ
            invariant
                0 <= o < 8,
                0 <= i <= N_FREQ + 1,
                s == octant_sign_spec(o as int),
                keys@.no_duplicates(),
                forall|p: DedupKey| keys@.contains(p) ==> on_shell(p),
                forall|o2: int, i2: int, j2: int|
                    grid_ok(i2, j2) && generated_before(o2, i2, j2, o as int, i as int, 0) && 0 <= o2
                        ==> keys@.contains(#[trigger] grid_key(o2, i2, j2)),
                pos.len() == keys@.len(),
                forall|a: int| 0 <= a < keys@.len() ==> first_generated(keys@[a], #[trigger] pos[a]),
                forall|a: int, b: int|
                    0 <= a < b < keys@.len() ==> generated_before(
                        (#[trigger] pos[a]).0,
                        pos[a].1,
                        pos[a].2,
                        (#[trigger] pos[b]).0,
                        pos[b].1,
                        pos[b].2,
                    ),
                forall|a: int| 0 <= a < keys@.len() ==> generated_before((#[trigger] pos[a]).0, pos[a].1, pos[a].2, o as int, i as int, 0),
            decreases N_FREQ + 1 - i,
        {
            let mut j: i32 = 0;
            while j <= N_FREQ - i
                invariant
                    0 <= o < 8,
                    0 <= i <= N_FREQ,
                    0 <= j <= N_FREQ - i + 1,
                    s == octant_sign_spec(o as int),
                    keys@.no_duplicates(),
                    forall|p: DedupKey| keys@.contains(p) ==> on_shell(p),
                    forall|o2: int, i2: int, j2: int|
                        grid_ok(i2, j2) && generated_before(o2, i2, j2, o as int, i as int, j as int)
                            && 0 <= o2 ==> keys@.contains(#[trigger] grid_key(o2, i2, j2)),
                    pos.len() == keys@.len(),
                forall|a: int| 0 <= a < keys@.len() ==> first_generated(keys@[a], #[trigger] pos[a]),
                forall|a: int, b: int|
                    0 <= a < b < keys@.len() ==> generated_before(
                        (#[trigger] pos[a]).0,
                        pos[a].1,
                        pos[a].2,
                        (#[trigger] pos[b]).0,
                        pos[b].1,
                        pos[b].2,
                    ),
                forall|a: int| 0 <= a < keys@.len() ==> generated_before((#[trigger] pos[a]).0, pos[a].1, pos[a].2, o as int, i as int, j as int),
                decreases N_FREQ - i + 1 - j,
            {
                let k = N_FREQ - i - j;
                let key = signed_key(i, j, k, s.0, s.1, s.2);
                proof {
                    assert(key == grid_key(o as int, i as int, j as int));
                    lemma_grid_key_on_shell(o as int, i as int, j as int);
                }
                match find_key(&keys, key) {
                    Some(_) => {},
                    None => {
                        let ghost before = keys@;
                        let ghost before_pos = pos;
                        keys.push(key);
                        proof {
                            pos = pos.push((o as int, i as int, j as int));
                            assert forall|o2: int, i2: int, j2: int|
                                0 <= o2 && grid_ok(i2, j2) && generated_before(
                                    o2,
                                    i2,
                                    j2,
                                    o as int,
                                    i as int,
                                    j as int,
                                ) implies #[trigger] grid_key(o2, i2, j2) != key by {
                                assert(before.contains(grid_key(o2, i2, j2)));
                            }
                            assert(first_generated(key, (o as int, i as int, j as int)));
                            assert forall|a: int| 0 <= a < keys@.len() implies first_generated(
                                keys@[a],
                                #[trigger] pos[a],
                            ) by {
                                if a < before.len() {
                                    assert(keys@[a] == before[a] && pos[a] == before_pos[a]);
                                }
                            }
                            assert forall|a: int, b: int|
                                0 <= a < keys@.len() && 0 <= b < keys@.len() && a != b implies keys@[a]
                                != keys@[b] by {
                                if a < before.len() && b < before.len() {
                                    assert(before[a] != before[b]);
                                } else if a < before.len() {
                                    assert(before.contains(before[a]));
                                } else {
                                    assert(before.contains(before[b]));
                                }
                            }
                            assert forall|p: DedupKey| keys@.contains(p) implies on_shell(p) by {
                                let a = choose|a: int| 0 <= a < keys@.len() && keys@[a] == p;
                                if a < before.len() {
                                    assert(before.contains(p));
                                }
                            }
                            assert forall|o2: int, i2: int, j2: int|
                                grid_ok(i2, j2) && generated_before(
                                    o2,
                                    i2,
                                    j2,
                                    o as int,
                                    i as int,
                                    j as int,
                                ) && 0 <= o2 implies keys@.contains(#[trigger] grid_key(o2, i2, j2)) by {
                                let q = grid_key(o2, i2, j2);
                                assert(before.contains(q));
                                let a = choose|a: int| 0 <= a < before.len() && before[a] == q;
                                assert(keys@[a] == q);
                            }
                        }
                    },
                }
                proof {
                    let q = grid_key(o as int, i as int, j as int);
                    assert(keys@.contains(q)) by {
                        if keys@.last() == q {
                            assert(keys@[keys@.len() - 1] == q);
                        }
                    }
                }
                j = j + 1;
            }
            i = i + 1;
        }
        o = o + 1;
    }
    proof {
        assert(pos.len() == keys@.len());
        assert(in_generation_order(keys@));
        assert forall|p: DedupKey| on_shell(p) implies keys@.contains(p) by {
            lemma_shell_point_is_grid_key(p);
            assert(keys@.contains(grid_key(octant_of(p), abs(p.0 as int), abs(p.1 as int))));
        }
    }
    keys
}

fn build_antipode(keys: &Vec<DedupKey>) -> (anti: Vec<usize>)
    requires
        forall|p: DedupKey| keys@.contains(p) <==> on_shell(p),
    ensures
        anti@.len() == keys@.len(),
        forall|a: int|
            0 <= a < keys@.len() ==> #[trigger] anti@[a] < keys@.len() && keys@[anti@[a] as int]
                == negated(keys@[a]),
{
    let mut anti: Vec<usize> = Vec::new();
    let mut a: usize = 0;
    while a < keys.len()
        invariant
            0 <= a <= keys@.len(),
            forall|p: DedupKey| keys@.contains(p) <==> on_shell(p),
            anti@.len() == a,
            forall|b: int|
                0 <= b < a ==> #[trigger] anti@[b] < keys@.len() && keys@[anti@[b] as int] == negated(
                    keys@[b],
                ),
        decreases keys@.len() - a,
    {
        let p = keys[a];
        proof {
            assert(keys@.contains(p));
            assert(on_shell(p));
        }
        let q: DedupKey = (-p.0, -p.1, -p.2);
        proof {
            assert(q == negated(p));
            assert(on_shell(q));
        }
        match find_key(keys, q) {
            Some(b) => {
                anti.push(b);
            },
            None => {
                proof {
                    assert(keys@.contains(q));
                }
                anti.push(0);
            },
        }
        a = a + 1;
    }
    anti
}

/// Index of grid vertex `(i, j)` of `octant`.
fn grid_index(keys: &Vec<DedupKey>, octant: usize, s: (i32, i32, i32), i: i32, j: i32) -> (r: usize)
    requires
        keys@.no_duplicates(),
        forall|p: DedupKey| keys@.contains(p) <==> on_shell(p),
        octant < 8,
        s == octant_sign_spec(octant as int),
        grid_ok(i as int, j as int),
    ensures
        r == vertex_index(keys@, octant as int, i as int, j as int),
        r < keys@.len(),
        keys@[r as int] == grid_key(octant as int, i as int, j as int),
{
    let key = signed_key(i, j, N_FREQ - i - j, s.0, s.1, s.2);
    proof {
        assert(key == grid_key(octant as int, i as int, j as int));
        lemma_grid_key_on_shell(octant as int, i as int, j as int);
    }
    match find_key(keys, key) {
        Some(a) => {
            proof {
                lemma_index_of_unique(keys@, a as int);
            }
            a
        },
        None => {
            proof {
                assert(keys@.contains(key));
            }
            0
        },
    }
}

fn build_octant_cells(keys: &Vec<DedupKey>, octant: usize) -> (cells: Vec<Option<CellTriangles>>)
    requires
        keys@.no_duplicates(),
        forall|p: DedupKey| keys@.contains(p) <==> on_shell(p),
        octant < 8,
    ensures
        cells@.len() == N_FREQ * N_FREQ,
        forall|i: int, j: int|
            0 <= i < N_FREQ && 0 <= j < N_FREQ ==> #[trigger] cells@[i * N_FREQ + j] == cell_spec(
                keys@,
                octant as int,
                i,
                j,
            ),
{
    let s = octant_signs(octant);
    let mut cells: Vec<Option<CellTriangles>> = Vec::new();
    let mut i: i32 = 0;
    while i < N_FREQ
        invariant
            0 <= i <= N_FREQ,
            octant < 8,
            s == octant_sign_spec(octant as int),
            keys@.no_duplicates(),
            forall|p: DedupKey| keys@.contains(p) <==> on_shell(p),
            cells@.len() == i * N_FREQ,
            forall|i2: int, j2: int|
                0 <= i2 < i && 0 <= j2 < N_FREQ ==> #[trigger] cells@[i2 * N_FREQ + j2] == cell_spec(
                    keys@,
                    octant as int,
                    i2,
                    j2,
                ),
        decreases N_FREQ - i,
    {
        let mut j: i32 = 0;
        while j < N_FREQ
            invariant
                0 <= i < N_FREQ,
                0 <= j <= N_FREQ,
                octant < 8,
                s == octant_sign_spec(octant as int),
                keys@.no_duplicates(),
                forall|p: DedupKey| keys@.contains(p) <==> on_shell(p),
                cells@.len() == i * N_FREQ + j,
                forall|i2: int, j2: int|
                    0 <= i2 < N_FREQ && 0 <= j2 < N_FREQ && (i2 < i || (i2 == i && j2 < j))
                        ==> #[trigger] cells@[i2 * N_FREQ + j2] == cell_spec(
                        keys@,
                        octant as int,
                        i2,
                        j2,
                    ),
            decreases N_FREQ - j,
        {
            let ghost before = cells@;
            if i + j > N_FREQ - 1 {
                cells.push(None);
            } else {
                let up = (
                    grid_index(keys, octant, s, i, j),
                    grid_index(keys, octant, s, i + 1, j),
                    grid_index(keys, octant, s, i, j + 1),
                );
                let down = if i + j < N_FREQ - 1 {
                    Some(
                        (
                            grid_index(keys, octant, s, i + 1, j),
                            grid_index(keys, octant, s, i, j + 1),
                            grid_index(keys, octant, s, i + 1, j + 1),
                        ),
                    )
                } else {
                    None
                };
                cells.push(Some(CellTriangles { up, down }));
            }
            proof {
                assert(cells@[i * N_FREQ + j] == cell_spec(keys@, octant as int, i as int, j as int));
                assert forall|i2: int, j2: int|
                    0 <= i2 < N_FREQ && 0 <= j2 < N_FREQ && (i2 < i || (i2 == i && j2 < j + 1))
                        implies #[trigger] cells@[i2 * N_FREQ + j2] == cell_spec(
                        keys@,
                        octant as int,
                        i2,
                        j2,
                    ) by {
                    if i2 < i || (i2 == i && j2 < j) {
                        assert(i2 * N_FREQ + j2 < i * N_FREQ + j);
                        assert(cells@[i2 * N_FREQ + j2] == before[i2 * N_FREQ + j2]);
                    }
                }
            }
            j = j + 1;
        }
        i = i + 1;
    }
    cells
}

/// Each sampled direction's antipode is the direction itself back again:
/// the pairing is a complete involution with exact negation.
pub proof fn lemma_antipode_involution(t: SphereTopology, a: int)
    requires
        t.wf(),
        0 <= a < t.spec_keys().len(),
    ensures
        t.spec_antipode()[t.spec_antipode()[a] as int] == a,
        t.spec_keys()[t.spec_antipode()[a] as int] == negated(t.spec_keys()[a]),
{
    let keys = t.spec_keys();
    let anti = t.spec_antipode();
    let b = anti[a] as int;
    assert(anti[b] < keys.len());
    assert(keys[anti[b] as int] == negated(keys[b]));
    assert(keys.contains(keys[a]));
    assert(on_shell(keys[a]));
    assert(negated(negated(keys[a])) == keys[a]);
    assert(keys[anti[b] as int] == keys[a]);
}

/// Where grid vertex `(x, y)` of `octant` sits among the keys.
proof fn lemma_vertex_index(keys: Seq<DedupKey>, octant: int, x: int, y: int)
    requires
        keys.no_duplicates(),
        keys.len() <= usize::MAX,
        forall|p: DedupKey| keys.contains(p) <==> on_shell(p),
        0 <= octant < 8,
        grid_ok(x, y),
    ensures
        0 <= vertex_index(keys, octant, x, y) < keys.len(),
        keys[vertex_index(keys, octant, x, y) as int] == grid_key(octant, x, y),
{
    lemma_grid_key_on_shell(octant, x, y);
    assert(keys.contains(grid_key(octant, x, y)));
    let idx = keys.index_of(grid_key(octant, x, y));
    assert(0 <= idx < keys.len() && keys[idx] == grid_key(octant, x, y));
    assert(vertex_index(keys, octant, x, y) as int == idx);
}

/// Different grid vertices of one octant have different keys.
proof fn lemma_grid_key_injective(octant: int, x1: int, y1: int, x2: int, y2: int)
    requires
        0 <= octant < 8,
        grid_ok(x1, y1),
        grid_ok(x2, y2),
        x1 != x2 || y1 != y2,
    ensures
        grid_key(octant, x1, y1) != grid_key(octant, x2, y2),
{
}

/// The three vertices of every triangle of the table are distinct directions.
pub proof fn lemma_triangle_vertices_distinct(t: SphereTopology, o: int, i: int, j: int)
    requires
        t.wf(),
        0 <= o < 8,
        0 <= i < N_FREQ,
        0 <= j < N_FREQ,
    ensures
        t.spec_cells()[o][i * N_FREQ + j] matches Some(c) ==> {
            &&& c.up.0 != c.up.1 && c.up.1 != c.up.2 && c.up.0 != c.up.2
            &&& c.down matches Some(d) ==> d.0 != d.1 && d.1 != d.2 && d.0 != d.2
        },
{
    let keys = t.spec_keys();
    let cell = t.spec_cells()[o][i * N_FREQ + j];
    assert(cell == cell_spec(keys, o, i, j));
    if i + j <= N_FREQ - 1 {
        lemma_vertex_index(keys, o, i, j);
        lemma_vertex_index(keys, o, i + 1, j);
        lemma_vertex_index(keys, o, i, j + 1);
        lemma_grid_key_injective(o, i, j, i + 1, j);
        lemma_grid_key_injective(o, i, j, i, j + 1);
        lemma_grid_key_injective(o, i + 1, j, i, j + 1);
        if i + j < N_FREQ - 1 {
            lemma_vertex_index(keys, o, i + 1, j + 1);
            lemma_grid_key_injective(o, i + 1, j, i + 1, j + 1);
            lemma_grid_key_injective(o, i, j + 1, i + 1, j + 1);
        }
    }
}

} // verus!
