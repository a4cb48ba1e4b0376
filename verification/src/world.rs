//! World state: the tile grid and what sits on it.

use crate::num::Num;
use crate::terrain::Terrain;
use std::collections::hash_map::DefaultHasher;
use std::hash::Hasher;
use vstd::prelude::*;
use vstd::std_specs::hash::*;

verus! {

#[derive(Debug, Clone, Copy, PartialEq, Eq, Hash, Structural)]
pub enum NodeKind {
    Forage,
    Wood,
    Wheat,
    Sheep,
}

impl NodeKind {
    pub open spec fn text(self) -> Seq<char> {
        match self {
            NodeKind::Forage => "FORAGE"@,
            NodeKind::Wood => "WOOD"@,
            NodeKind::Wheat => "WHEAT"@,
            NodeKind::Sheep => "SHEEP"@,
        }
    }

    pub fn as_str(self) -> (s: &'static str)
        ensures
            s@ == self.text(),
    {
        match self {
            NodeKind::Forage => "FORAGE",
            NodeKind::Wood => "WOOD",
            NodeKind::Wheat => "WHEAT",
            NodeKind::Sheep => "SHEEP",
        }
    }

    pub open spec fn code(self) -> u8 {
        match self {
            NodeKind::Forage => 0,
            NodeKind::Wood => 1,
            NodeKind::Wheat => 2,
            NodeKind::Sheep => 3,
        }
    }

    fn code_exec(self) -> (v: u8)
        ensures
            v == self.code(),
    {
        match self {
            NodeKind::Forage => 0,
            NodeKind::Wood => 1,
            NodeKind::Wheat => 2,
            NodeKind::Sheep => 3,
        }
    }
}

#[derive(Debug, Clone, Copy)]
pub struct ResourceNode {
    pub kind: NodeKind,
    pub x: u32,
    pub y: u32,
    pub quantity: Num,
    pub max_quantity: Num,
    pub regen_rate: Num,
}

#[derive(Debug, Clone, Copy)]
pub struct Founder {
    pub x: u32,
    pub y: u32,
    pub female: bool,
}

#[derive(Debug, Clone)]
pub struct World {
    pub width: u32,
    pub height: u32,
    pub chunk_size: u32,
    pub seed: u64,
    /// Row-major, `width * height`. One byte per tile on disk.
    pub tiles: Vec<Terrain>,
    pub nodes: Vec<ResourceNode>,
    pub founders: Vec<Founder>,
}

/// The ground of a world: its tiles and nothing that stands on them.
#[verifier::ext_equal]
pub struct Ground {
    pub width: u32,
    pub height: u32,
    pub tiles: Seq<Terrain>,
}

impl Ground {
    pub open spec fn wf(self) -> bool {
        self.tiles.len() == self.width * self.height
    }

    pub open spec fn inside(self, x: int, y: int) -> bool {
        0 <= x < self.width && 0 <= y < self.height
    }

    pub open spec fn tile(self, x: int, y: int) -> Terrain {
        self.tiles[tile_index(self.width, x, y)]
    }
}

/// The place of a tile in a row-major grid.
pub open spec fn tile_index(width: u32, x: int, y: int) -> int {
    y * width + x
}

/// A tile inside a grid has its place inside the row-major list.
pub proof fn lemma_tile_index(width: u32, height: u32, x: int, y: int)
    requires
        0 <= x < width,
        0 <= y < height,
    ensures
        0 <= tile_index(width, x, y) < width * height,
{
    assert(0 <= y * width && y * width + width <= width * height) by (nonlinear_arith)
        requires
            0 <= y,
            y + 1 <= height,
            width >= 0,
    ;
}

/// Two tiles of a grid share a place only if they are the same tile.
pub proof fn lemma_tile_index_injective(width: u32, x: int, y: int, x2: int, y2: int)
    requires
        0 <= x < width,
        0 <= x2 < width,
        tile_index(width, x, y) == tile_index(width, x2, y2),
    ensures
        x == x2,
        y == y2,
{
    assert(x == x2 && y == y2) by (nonlinear_arith)
        requires
            0 <= x < width,
            0 <= x2 < width,
            y * width + x == y2 * width + x2,
    ;
}

/// Groups of a size that cover a length.
pub open spec fn groups(len: u32, size: u32) -> int {
    (len + size - 1) / size as int
}

pub fn div_ceil(len: u32, size: u32) -> (r: u32)
    requires
        size > 0,
    ensures
        r == groups(len, size),
{
    let r: u64 = (len as u64 + size as u64 - 1) / size as u64;
    proof {
        assert(r <= len) by (nonlinear_arith)
            requires
                r == (len + size - 1) / size as int,
                size >= 1,
                len >= 0,
        ;
    }
    r as u32
}

/// The four bytes of a word, lowest first.
pub open spec fn word_bytes(w: u32) -> Seq<u8> {
    seq![
        (w % 256) as u8,
        (w / 0x100 % 256) as u8,
        (w / 0x1_0000 % 256) as u8,
        (w / 0x100_0000) as u8,
    ]
}

pub open spec fn long_bytes(w: u64) -> Seq<u8> {
    word_bytes((w % 0x1_0000_0000) as u32) + word_bytes((w / 0x1_0000_0000) as u32)
}

pub fn push_word(out: &mut Vec<u8>, w: u32)
    ensures
        final(out)@ == old(out)@ + word_bytes(w),
{
    out.push((w % 256) as u8);
    out.push((w / 0x100 % 256) as u8);
    out.push((w / 0x1_0000 % 256) as u8);
    out.push((w / 0x100_0000) as u8);
    assert(out@ == old(out)@ + word_bytes(w));
}

pub fn push_long(out: &mut Vec<u8>, w: u64)
    ensures
        final(out)@ == old(out)@ + long_bytes(w),
{
    push_word(out, (w % 0x1_0000_0000) as u32);
    push_word(out, (w / 0x1_0000_0000) as u32);
    assert(out@ == old(out)@ + long_bytes(w));
}

/// A run of bytes through the standard hasher.
pub open spec fn hash_of(bytes: Seq<u8>) -> u64 {
    DefaultHasher::spec_finish(seq![bytes])
}

pub fn hash_bytes(bytes: &Vec<u8>) -> (h: u64)
    ensures
        h == hash_of(bytes@),
{
    let mut hasher = DefaultHasher::new();
    hasher.write(bytes.as_slice());
    assert(hasher@ == seq![bytes@]);
    hasher.finish()
}

fn push_node(out: &mut Vec<u8>, n: ResourceNode)
    ensures
        final(out)@ == old(out)@ + node_bytes(n),
{
    push_long(out, n.kind.code_exec() as u64);
    push_word(out, n.x);
    push_word(out, n.y);
    push_word(out, n.quantity.bits);
    push_word(out, n.max_quantity.bits);
    push_word(out, n.regen_rate.bits);
    assert(out@ == old(out)@ + node_bytes(n));
}

/// The tiles as bytes.
pub open spec fn codes_of(tiles: Seq<Terrain>) -> Seq<u8> {
    Seq::new(tiles.len(), |i: int| tiles[i].code())
}

pub open spec fn node_bytes(n: ResourceNode) -> Seq<u8> {
    long_bytes(n.kind.code() as u64) + word_bytes(n.x) + word_bytes(n.y) + word_bytes(n.quantity.bits) + word_bytes(
        n.max_quantity.bits,
    ) + word_bytes(n.regen_rate.bits)
}

pub open spec fn founder_bytes(f: Founder) -> Seq<u8> {
    word_bytes(f.x) + word_bytes(f.y) + seq![
        if f.female {
            1u8
        } else {
            0u8
        },
    ]
}

pub open spec fn nodes_bytes(nodes: Seq<ResourceNode>) -> Seq<u8>
    decreases nodes.len(),
{
    if nodes.len() == 0 {
        Seq::empty()
    } else {
        nodes_bytes(nodes.drop_last()) + node_bytes(nodes.last())
    }
}

pub open spec fn founders_bytes(founders: Seq<Founder>) -> Seq<u8>
    decreases founders.len(),
{
    if founders.len() == 0 {
        Seq::empty()
    } else {
        founders_bytes(founders.drop_last()) + founder_bytes(founders.last())
    }
}

impl World {
    pub open spec fn ground(&self) -> Ground {
        Ground { width: self.width, height: self.height, tiles: self.tiles@ }
    }

    /// The grid holds exactly one tile per place.
    pub open spec fn wf(&self) -> bool {
        self.tiles@.len() == self.width * self.height
    }

    pub open spec fn inside(&self, x: int, y: int) -> bool {
        0 <= x < self.width && 0 <= y < self.height
    }

    pub open spec fn tile(&self, x: int, y: int) -> Terrain {
        self.tiles@[tile_index(self.width, x, y)]
    }

    pub fn idx(&self, x: u32, y: u32) -> (i: usize)
        requires
            tile_index(self.width, x as int, y as int) <= usize::MAX,
        ensures
            i == tile_index(self.width, x as int, y as int),
    {
        proof {
            assert(0 <= y * self.width) by (nonlinear_arith)
                requires
                    y >= 0,
                    self.width >= 0,
            ;
        }
        (y as usize) * (self.width as usize) + (x as usize)
    }

    pub fn at(&self, x: u32, y: u32) -> (t: Terrain)
        requires
            tile_index(self.width, x as int, y as int) < self.tiles@.len(),
        ensures
            t == self.tile(x as int, y as int),
    {
        assert(self.tiles@.len() == self.tiles.len());
        self.tiles[self.idx(x, y)]
    }

    pub open spec fn in_bounds_spec(&self, x: i64, y: i64) -> bool {
        self.inside(x as int, y as int)
    }

    #[verifier::when_used_as_spec(in_bounds_spec)]
    pub fn in_bounds(&self, x: i64, y: i64) -> (r: bool)
        ensures
            r == self.inside(x as int, y as int),
    {
        x >= 0 && y >= 0 && x < self.width as i64 && y < self.height as i64
    }

    pub fn chunks_x(&self) -> (r: u32)
        requires
            self.chunk_size > 0,
        ensures
            r == groups(self.width, self.chunk_size),
    {
        div_ceil(self.width, self.chunk_size)
    }

    pub fn chunks_y(&self) -> (r: u32)
        requires
            self.chunk_size > 0,
        ensures
            r == groups(self.height, self.chunk_size),
    {
        div_ceil(self.height, self.chunk_size)
    }

    /// The byte of a tile of a chunk; past the edge of the map it is deep water.
    pub open spec fn chunk_code(&self, cx: int, cy: int, tx: int, ty: int) -> u8 {
        let x = cx * self.chunk_size + tx;
        let y = cy * self.chunk_size + ty;
        if x < self.width && y < self.height {
            self.tile(x, y).code()
        } else {
            Terrain::DeepWater.code()
        }
    }

    /// One chunk's tiles as raw bytes, row-major within the chunk. This is both
    /// the persistence unit and the render-cache unit.
    pub fn chunk_blob(&self, cx: u32, cy: u32) -> (out: Vec<u8>)
        requires
            self.wf(),
            self.chunk_size * self.chunk_size <= u32::MAX,
            cx * self.chunk_size + self.chunk_size <= u32::MAX,
            cy * self.chunk_size + self.chunk_size <= u32::MAX,
        ensures
            out@.len() == self.chunk_size * self.chunk_size,
            forall|tx: int, ty: int|
                0 <= tx < self.chunk_size && 0 <= ty < self.chunk_size ==> #[trigger] out@[tile_index(
                    self.chunk_size,
                    tx,
                    ty,
                )] == self.chunk_code(cx as int, cy as int, tx, ty),
    {
        let cs = self.chunk_size;
        let mut out: Vec<u8> = Vec::with_capacity((cs * cs) as usize);
        let mut ty: u32 = 0;
        while ty < cs
            invariant
                self.wf(),
                cs == self.chunk_size,
                ty <= cs,
                cx * cs + cs <= u32::MAX,
                cy * cs + cs <= u32::MAX,
                out@.len() == ty * cs,
                forall|i: int, j: int|
                    0 <= i < cs && 0 <= j < ty ==> #[trigger] out@[tile_index(cs, i, j)] == self.chunk_code(
                        cx as int,
                        cy as int,
                        i,
                        j,
                    ),
            decreases cs - ty,
        {
            let mut tx: u32 = 0;
            while tx < cs
                invariant
                    self.wf(),
                    cs == self.chunk_size,
                    ty < cs,
                    tx <= cs,
                    cx * cs + cs <= u32::MAX,
                    cy * cs + cs <= u32::MAX,
                    out@.len() == tile_index(cs, tx as int, ty as int),
                    forall|i: int, j: int|
                        0 <= i < cs && 0 <= j < ty ==> #[trigger] out@[tile_index(cs, i, j)]
                            == self.chunk_code(cx as int, cy as int, i, j),
                    forall|i: int|
                        0 <= i < tx ==> #[trigger] out@[tile_index(cs, i, ty as int)] == self.chunk_code(
                            cx as int,
                            cy as int,
                            i,
                            ty as int,
                        ),
                decreases cs - tx,
            {
                proof {
                    assert(cx * cs >= 0 && cy * cs >= 0) by (nonlinear_arith)
                        requires
                            cx >= 0,
                            cy >= 0,
                            cs >= 0,
                    ;
                }
                let x = cx * cs + tx;
                let y = cy * cs + ty;
                let t = if x < self.width && y < self.height {
                    proof {
                        lemma_tile_index(self.width, self.height, x as int, y as int);
                    }
                    self.at(x, y)
                } else {
                    Terrain::DeepWater
                };
                let ghost before = out@;
                out.push(t.code());
                proof {
                    assert forall|i: int, j: int| 0 <= i < cs && 0 <= j < ty implies #[trigger] out@[tile_index(
                        cs,
                        i,
                        j,
                    )] == self.chunk_code(cx as int, cy as int, i, j) by {
                        lemma_tile_index(cs, ty, i, j);
                        assert(before[tile_index(cs, i, j)] == self.chunk_code(cx as int, cy as int, i, j));
                    }
                    assert forall|i: int| 0 <= i < tx + 1 implies #[trigger] out@[tile_index(
                        cs,
                        i,
                        ty as int,
                    )] == self.chunk_code(cx as int, cy as int, i, ty as int) by {
                        if i < tx {
                            assert(before[tile_index(cs, i, ty as int)] == self.chunk_code(
                                cx as int,
                                cy as int,
                                i,
                                ty as int,
                            ));
                        }
                    }
                }
                tx = tx + 1;
            }
            proof {
                assert((ty + 1) * cs == ty * cs + cs) by (nonlinear_arith);
            }
            ty = ty + 1;
        }
        out
    }

    /// The whole grid as bytes, for a single transfer to the renderer.
    pub fn terrain_bytes(&self) -> (out: Vec<u8>)
        ensures
            out@ == codes_of(self.tiles@),
    {
        let mut out: Vec<u8> = Vec::with_capacity(self.tiles.len());
        for i in 0..self.tiles.len()
            invariant
                out@ == codes_of(self.tiles@.take(i as int)),
        {
            out.push(self.tiles[i].code());
            assert(out@ == codes_of(self.tiles@.take(i + 1)));
        }
        assert(self.tiles@.take(self.tiles@.len() as int) == self.tiles@);
        out
    }

    /// Everything world generation produced, as one run of bytes.
    pub open spec fn signature(&self) -> Seq<u8> {
        word_bytes(self.width) + word_bytes(self.height) + long_bytes(self.seed) + long_bytes(
            self.tiles@.len() as u64,
        ) + codes_of(self.tiles@) + nodes_bytes(self.nodes@) + founders_bytes(self.founders@)
    }

    /// Stable fingerprint of everything world generation produced: the same
    /// seed has to give the same one, without comparing megabytes.
    pub fn fingerprint(&self) -> (h: u64)
        ensures
            h == hash_of(self.signature()),
    {
        let mut out: Vec<u8> = Vec::new();
        push_word(&mut out, self.width);
        push_word(&mut out, self.height);
        push_long(&mut out, self.seed);
        push_long(&mut out, self.tiles.len() as u64);
        let ghost head = word_bytes(self.width) + word_bytes(self.height) + long_bytes(self.seed)
            + long_bytes(self.tiles@.len() as u64);
        assert(out@ == head);
        for i in 0..self.tiles.len()
            invariant
                out@ == head + codes_of(self.tiles@.take(i as int)),
        {
            out.push(self.tiles[i].code());
            assert(out@ == head + codes_of(self.tiles@.take(i + 1)));
        }
        assert(self.tiles@.take(self.tiles@.len() as int) == self.tiles@);
        let ghost with_tiles = head + codes_of(self.tiles@);
        assert(out@ == with_tiles + nodes_bytes(self.nodes@.take(0)));
        for i in 0..self.nodes.len()
            invariant
                out@ == with_tiles + nodes_bytes(self.nodes@.take(i as int)),
        {
            let ghost before = nodes_bytes(self.nodes@.take(i as int));
            push_node(&mut out, self.nodes[i]);
            proof {
                assert(self.nodes@.take(i + 1).drop_last() == self.nodes@.take(i as int));
                assert((with_tiles + before) + node_bytes(self.nodes@[i as int]) == with_tiles + (before + node_bytes(
                    self.nodes@[i as int],
                )));
            }
        }
        assert(self.nodes@.take(self.nodes@.len() as int) == self.nodes@);
        let ghost with_nodes = with_tiles + nodes_bytes(self.nodes@);
        assert(out@ == with_nodes + founders_bytes(self.founders@.take(0)));
        for i in 0..self.founders.len()
            invariant
                out@ == with_nodes + founders_bytes(self.founders@.take(i as int)),
        {
            let f = self.founders[i];
            push_word(&mut out, f.x);
            push_word(&mut out, f.y);
            if f.female {
                out.push(1);
            } else {
                out.push(0);
            }
            proof {
                assert(self.founders@.take(i + 1).drop_last() == self.founders@.take(i as int));
                assert(out@ == with_nodes + founders_bytes(self.founders@.take(i + 1)));
            }
        }
        assert(self.founders@.take(self.founders@.len() as int) == self.founders@);
        assert(out@ == self.signature());
        hash_bytes(&out)
    }
}

/// The chunks tile the map: every tile is found, under its own byte, in the
/// chunk its position falls in.
pub proof fn law_chunks_tile_the_map(world: &World, x: int, y: int)
    requires
        world.wf(),
        world.chunk_size > 0,
        world.inside(x, y),
    ensures
        ({
            let cs = world.chunk_size as int;
            &&& 0 <= x / cs < groups(world.width, world.chunk_size)
            &&& 0 <= y / cs < groups(world.height, world.chunk_size)
            &&& world.chunk_code(x / cs, y / cs, x % cs, y % cs) == world.tile(x, y).code()
        }),
{
    let cs = world.chunk_size as int;
    lemma_group_of(x, world.width, world.chunk_size);
    lemma_group_of(y, world.height, world.chunk_size);
    vstd::arithmetic::div_mod::lemma_fundamental_div_mod(x, cs);
    vstd::arithmetic::div_mod::lemma_fundamental_div_mod(y, cs);
    assert(x / cs * cs == cs * (x / cs)) by (nonlinear_arith);
    assert(y / cs * cs == cs * (y / cs)) by (nonlinear_arith);
}

pub proof fn lemma_group_of(x: int, len: u32, size: u32)
    requires
        0 <= x < len,
        size > 0,
    ensures
        0 <= x / size as int,
        x / size as int <= groups(len, size) - 1,
{
    let s = size as int;
    assert(0 <= x / s && x / s + 1 <= (len + s - 1) / s) by {
        vstd::arithmetic::div_mod::lemma_div_is_ordered(0, x, s);
        vstd::arithmetic::div_mod::lemma_div_is_ordered(x + s, len + s - 1, s);
        vstd::arithmetic::div_mod::lemma_div_plus_one(x, s);
        vstd::arithmetic::div_mod::lemma_div_basics(s);
    }
}

/// Worlds that agree on everything generated have one fingerprint.
pub proof fn law_fingerprint_follows_contents(a: &World, b: &World)
    requires
        a.width == b.width,
        a.height == b.height,
        a.seed == b.seed,
        a.tiles@ == b.tiles@,
        a.nodes@ == b.nodes@,
        a.founders@ == b.founders@,
    ensures
        hash_of(a.signature()) == hash_of(b.signature()),
{
}

/// What is written one after the other is read one after the other, if it is known
/// how long the last is.
pub proof fn lemma_split(a: Seq<u8>, b: Seq<u8>, c: Seq<u8>, d: Seq<u8>)
    requires
        a + b == c + d,
        b.len() == d.len(),
    ensures
        a == c,
        b == d,
{
    assert((a + b).len() == a.len() + b.len() && (c + d).len() == c.len() + d.len());
    assert(a.len() == c.len());
    assert forall|i: int| 0 <= i < a.len() implies a[i] == c[i] by {
        assert((a + b)[i] == a[i] && (c + d)[i] == c[i]);
    }
    assert forall|i: int| 0 <= i < b.len() implies b[i] == d[i] by {
        assert((a + b)[a.len() + i] == b[i] && (c + d)[c.len() + i] == d[i]);
    }
    assert(a =~= c);
    assert(b =~= d);
}

/// Different words are written differently.
pub proof fn law_words_are_told_apart(a: u32, b: u32)
    ensures
        word_bytes(a).len() == 4,
        word_bytes(a) == word_bytes(b) ==> a == b,
{
    if word_bytes(a) == word_bytes(b) {
        let (p, q) = (word_bytes(a), word_bytes(b));
        assert(p[0] == q[0] && p[1] == q[1] && p[2] == q[2] && p[3] == q[3]);
        assert(a % 256 == b % 256 && a / 0x100 % 256 == b / 0x100 % 256 && a / 0x1_0000 % 256 == b / 0x1_0000 % 256 && a
            / 0x100_0000 == b / 0x100_0000);
    }
}

/// And so are different long ones.
pub proof fn law_long_words_are_told_apart(a: u64, b: u64)
    ensures
        long_bytes(a).len() == 8,
        long_bytes(a) == long_bytes(b) ==> a == b,
{
    if long_bytes(a) == long_bytes(b) {
        lemma_split(
            word_bytes((a % 0x1_0000_0000) as u32),
            word_bytes((a / 0x1_0000_0000) as u32),
            word_bytes((b % 0x1_0000_0000) as u32),
            word_bytes((b / 0x1_0000_0000) as u32),
        );
        law_words_are_told_apart((a % 0x1_0000_0000) as u32, (b % 0x1_0000_0000) as u32);
        law_words_are_told_apart((a / 0x1_0000_0000) as u32, (b / 0x1_0000_0000) as u32);
    }
}

/// Two worlds of a size are written alike only if they are alike: the same seed, the
/// same ground, tile by tile, and, node by node and founder by founder, the same in
/// them.
pub proof fn law_worlds_are_told_apart(a: &World, b: &World)
    requires
        a.signature() == b.signature(),
        a.tiles@.len() == b.tiles@.len(),
        a.nodes@.len() == b.nodes@.len(),
        a.founders@.len() == b.founders@.len(),
    ensures
        a.width == b.width && a.height == b.height && a.seed == b.seed,
        a.tiles@ == b.tiles@,
        a.nodes@ == b.nodes@,
        a.founders@ == b.founders@,
{
    let n = a.tiles@.len() as u64;
    let (wa, ha, sa, na, ta) = (
        word_bytes(a.width),
        word_bytes(a.height),
        long_bytes(a.seed),
        long_bytes(n),
        codes_of(a.tiles@),
    );
    let (wb, hb, sb, tb) = (word_bytes(b.width), word_bytes(b.height), long_bytes(b.seed), codes_of(b.tiles@));
    let (ra, rb) = (nodes_bytes(a.nodes@), nodes_bytes(b.nodes@));
    let (fa, fb) = (founders_bytes(a.founders@), founders_bytes(b.founders@));
    lemma_founders_apart(a.founders@, b.founders@);
    lemma_nodes_apart(a.nodes@, b.nodes@);
    law_words_are_told_apart(a.width, b.width);
    law_words_are_told_apart(a.height, b.height);
    law_long_words_are_told_apart(a.seed, b.seed);
    law_long_words_are_told_apart(n, n);
    lemma_split(wa + ha + sa + na + ta + ra, fa, wb + hb + sb + na + tb + rb, fb);
    lemma_split(wa + ha + sa + na + ta, ra, wb + hb + sb + na + tb, rb);
    lemma_split(wa + ha + sa + na, ta, wb + hb + sb + na, tb);
    lemma_split(wa + ha + sa, na, wb + hb + sb, na);
    lemma_split(wa + ha, sa, wb + hb, sb);
    lemma_split(wa, ha, wb, hb);
    assert forall|i: int| 0 <= i < a.tiles@.len() implies a.tiles@[i] == b.tiles@[i] by {
        assert(ta[i] == tb[i]);
        crate::terrain::law_codes_are_distinct(a.tiles@[i], b.tiles@[i]);
    }
    assert(a.tiles@ =~= b.tiles@);
}

proof fn lemma_node_length(n: ResourceNode)
    ensures
        node_bytes(n).len() == 28,
{
    law_long_words_are_told_apart(n.kind.code() as u64, n.kind.code() as u64);
    law_words_are_told_apart(n.x, n.x);
    law_words_are_told_apart(n.y, n.y);
    law_words_are_told_apart(n.quantity.bits, n.quantity.bits);
    law_words_are_told_apart(n.max_quantity.bits, n.max_quantity.bits);
    law_words_are_told_apart(n.regen_rate.bits, n.regen_rate.bits);
}

/// Six things written one after the other.
proof fn lemma_six_apart(
    k: Seq<u8>,
    x: Seq<u8>,
    y: Seq<u8>,
    q: Seq<u8>,
    m: Seq<u8>,
    r: Seq<u8>,
    l: Seq<u8>,
    v: Seq<u8>,
    w: Seq<u8>,
    s: Seq<u8>,
    n: Seq<u8>,
    t: Seq<u8>,
)
    requires
        x.len() == v.len(),
        y.len() == w.len(),
        q.len() == s.len(),
        m.len() == n.len(),
        r.len() == t.len(),
        k + x + y + q + m + r == l + v + w + s + n + t,
    ensures
        k == l && x == v && y == w && q == s && m == n && r == t,
{
    lemma_split(k + x + y + q + m, r, l + v + w + s + n, t);
    lemma_split(k + x + y + q, m, l + v + w + s, n);
    lemma_split(k + x + y, q, l + v + w, s);
    lemma_split(k + x, y, l + v, w);
    lemma_split(k, x, l, v);
}

#[verifier::rlimit(80)]
#[verifier::spinoff_prover]
proof fn lemma_node_apart(a: ResourceNode, b: ResourceNode)
    requires
        node_bytes(a) == node_bytes(b),
    ensures
        a == b,
{
    let (ka, kb) = (a.kind.code() as u64, b.kind.code() as u64);
    lemma_six_apart(
        long_bytes(ka),
        word_bytes(a.x),
        word_bytes(a.y),
        word_bytes(a.quantity.bits),
        word_bytes(a.max_quantity.bits),
        word_bytes(a.regen_rate.bits),
        long_bytes(kb),
        word_bytes(b.x),
        word_bytes(b.y),
        word_bytes(b.quantity.bits),
        word_bytes(b.max_quantity.bits),
        word_bytes(b.regen_rate.bits),
    );
    law_long_words_are_told_apart(ka, kb);
    law_words_are_told_apart(a.x, b.x);
    law_words_are_told_apart(a.y, b.y);
    law_words_are_told_apart(a.quantity.bits, b.quantity.bits);
    law_words_are_told_apart(a.max_quantity.bits, b.max_quantity.bits);
    law_words_are_told_apart(a.regen_rate.bits, b.regen_rate.bits);
}

proof fn lemma_nodes_apart(a: Seq<ResourceNode>, b: Seq<ResourceNode>)
    requires
        a.len() == b.len(),
    ensures
        nodes_bytes(a).len() == nodes_bytes(b).len(),
        nodes_bytes(a) == nodes_bytes(b) ==> a == b,
    decreases a.len(),
{
    if a.len() > 0 {
        lemma_nodes_apart(a.drop_last(), b.drop_last());
        lemma_node_length(a.last());
        lemma_node_length(b.last());
        if nodes_bytes(a) == nodes_bytes(b) {
            lemma_split(
                nodes_bytes(a.drop_last()),
                node_bytes(a.last()),
                nodes_bytes(b.drop_last()),
                node_bytes(b.last()),
            );
            lemma_node_apart(a.last(), b.last());
            assert(a =~= a.drop_last().push(a.last()));
            assert(b =~= b.drop_last().push(b.last()));
        }
    } else {
        assert(a =~= b);
    }
}

proof fn lemma_founders_apart(a: Seq<Founder>, b: Seq<Founder>)
    requires
        a.len() == b.len(),
    ensures
        founders_bytes(a).len() == founders_bytes(b).len(),
        founders_bytes(a) == founders_bytes(b) ==> a == b,
    decreases a.len(),
{
    if a.len() > 0 {
        lemma_founders_apart(a.drop_last(), b.drop_last());
        let (f, g) = (a.last(), b.last());
        law_words_are_told_apart(f.x, g.x);
        law_words_are_told_apart(f.y, g.y);
        law_words_are_told_apart(g.x, f.x);
        law_words_are_told_apart(g.y, f.y);
        let sex = |f: Founder| seq![if f.female { 1u8 } else { 0u8 }];
        assert(founder_bytes(f) == word_bytes(f.x) + word_bytes(f.y) + sex(f));
        assert(founder_bytes(g) == word_bytes(g.x) + word_bytes(g.y) + sex(g));
        if founders_bytes(a) == founders_bytes(b) {
            lemma_split(founders_bytes(a.drop_last()), founder_bytes(f), founders_bytes(b.drop_last()), founder_bytes(g));
            lemma_split(word_bytes(f.x) + word_bytes(f.y), sex(f), word_bytes(g.x) + word_bytes(g.y), sex(g));
            lemma_split(word_bytes(f.x), word_bytes(f.y), word_bytes(g.x), word_bytes(g.y));
            assert(sex(f)[0] == sex(g)[0]);
            assert(f == g);
            assert(a =~= a.drop_last().push(f));
            assert(b =~= b.drop_last().push(g));
        }
    } else {
        assert(a =~= b);
    }
}

} // verus!
