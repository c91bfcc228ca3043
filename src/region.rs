//! Regions: boxes of cells, each cell an index into the region's palette of
//! block states, packed into 64-bit words.
use crate::block::{BlockState, BlockStatePattern, BlockStateView};
use crate::packing::{
    bits_for_len, cell_value, lemma_cell_in_words, lemma_field_end, lemma_fits_bits,
    lemma_other_cell, lemma_required_bits_bound, lemma_required_bits_monotone,
    lemma_required_bits_spec, lemma_written_cell, read_cell, required_bits, widen, word_bit,
    words_for, words_needed, write_cell, MAX_CELLS, MAX_PALETTE,
};
use vstd::arithmetic::div_mod::{
    lemma_fundamental_div_mod_converse_div, lemma_fundamental_div_mod_converse_mod,
};
use vstd::arithmetic::power2::pow2;
use vstd::prelude::*;

verus! {

/// Relies on serde_json::Value as an opaque tree: entity, tile entity and
/// tick payloads are carried through and never read.
#[verifier::external_type_specification]
#[verifier::external_body]
pub struct ExValue(serde_json::Value);

/// A point or an extent in three dimensions.
#[derive(Debug, Clone, Copy, PartialEq, Eq, Hash, Structural)]
pub struct Coordinates {
    pub x: i32,
    pub y: i32,
    pub z: i32,
}

impl From<(i32, i32, i32)> for Coordinates {
    fn from(t: (i32, i32, i32)) -> (r: Coordinates)
        ensures
            r == (Coordinates { x: t.0, y: t.1, z: t.2 }),
    {
        Coordinates { x: t.0, y: t.1, z: t.2 }
    }
}

impl vstd::std_specs::convert::FromSpecImpl<(i32, i32, i32)> for Coordinates {
    open spec fn obeys_from_spec() -> bool {
        true
    }

    open spec fn from_spec(t: (i32, i32, i32)) -> Coordinates {
        Coordinates { x: t.0, y: t.1, z: t.2 }
    }
}

/// Why a region operation failed.
#[derive(Debug, Clone, Copy, PartialEq, Eq, Structural)]
pub enum RegionError {
    /// A coordinate lies outside the region.
    OutOfBounds,
    /// The parts of a region do not fit together.
    Malformed,
}

/// The magnitude of one component of a size; a negative size only gives the
/// orientation.
pub open spec fn extent(c: i32) -> nat {
    if c < 0 {
        (-c) as nat
    } else {
        c as nat
    }
}

/// The number of cells in a region of this size.
pub open spec fn volume(size: Coordinates) -> nat {
    extent(size.x) * extent(size.y) * extent(size.z)
}

pub open spec fn in_bounds(size: Coordinates, p: Coordinates) -> bool {
    0 <= p.x < extent(size.x) && 0 <= p.y < extent(size.y) && 0 <= p.z < extent(size.z)
}

/// The position of a cell in the packed order: by layer `y`, then row `z`,
/// then `x`.
pub open spec fn linear_index(size: Coordinates, p: Coordinates) -> int {
    p.y * (extent(size.x) * extent(size.z)) + p.z * extent(size.x) + p.x
}

proof fn lemma_index_in_volume(x: nat, y: nat, z: nat, sx: nat, sy: nat, sz: nat)
    requires
        x < sx,
        y < sy,
        z < sz,
    ensures
        y * (sx * sz) + z * sx + x < sx * sy * sz,
        sx * sz <= sx * sy * sz,
{
    assert(z * sx + x < sz * sx) by (nonlinear_arith)
        requires
            x < sx,
            z < sz,
    ;
    assert(y * (sx * sz) + sx * sz <= sy * (sx * sz)) by (nonlinear_arith)
        requires
            y < sy,
    ;
    assert(sx * sy * sz == sy * (sx * sz)) by (nonlinear_arith);
    assert(sx * sz <= sx * sy * sz) by (nonlinear_arith)
        requires
            0 <= y < sy,
    ;
}

/// Cell `i` is at one of the coordinates in `found`.
pub open spec fn found_at(found: Seq<Coordinates>, size: Coordinates, i: nat) -> bool {
    exists|k: int| 0 <= k < found.len() && linear_index(size, found[k]) == i
}

/// Stepping `x`, carrying into `z` and then `y`, visits the next cell.
proof fn lemma_odometer(x: nat, y: nat, z: nat, sx: nat, sy: nat, sz: nat, i: nat)
    requires
        x < sx,
        y < sy,
        z < sz,
        i == y * (sx * sz) + z * sx + x,
    ensures
        i + 1 < sx * sy * sz ==> if x + 1 < sx {
            i + 1 == y * (sx * sz) + z * sx + (x + 1)
        } else if z + 1 < sz {
            i + 1 == y * (sx * sz) + (z + 1) * sx
        } else {
            y + 1 < sy && i + 1 == (y + 1) * (sx * sz)
        },
{
    assert((z + 1) * sx == z * sx + sx) by (nonlinear_arith);
    assert((y + 1) * (sx * sz) == y * (sx * sz) + sx * sz) by (nonlinear_arith);
    assert(sz * sx == sx * sz) by (nonlinear_arith);
    if x + 1 == sx && z + 1 == sz && i + 1 < sx * sy * sz {
        assert(sx * sy * sz == sy * (sx * sz)) by (nonlinear_arith);
        assert(y + 1 < sy) by (nonlinear_arith)
            requires
                (y + 1) * (sx * sz) < sy * (sx * sz),
        ;
    }
}

/// Parts that make a region: at most `MAX_CELLS` cells and `MAX_PALETTE`
/// distinct palette entries, `ceil(volume * bits / 64)` words, and every
/// cell an index into the palette.
pub open spec fn parts_fit(size: Coordinates, palette: Seq<BlockState>, words: Seq<u64>) -> bool {
    let bits = required_bits(palette.len());
    &&& volume(size) <= MAX_CELLS
    &&& palette.len() <= MAX_PALETTE
    &&& forall|j: int, k: int| 0 <= j < k < palette.len() ==> palette[j]@ != palette[k]@
    &&& words.len() == words_for(volume(size), bits)
    &&& forall|i: nat| i < volume(size) ==> #[trigger] cell_value(words, i, bits) < palette.len()
}

fn extent_of(c: i32) -> (r: u64)
    ensures
        r == extent(c),
        r <= 0x8000_0000,
{
    if c < 0 {
        (-(c as i64)) as u64
    } else {
        c as u64
    }
}

/// A box of cells. Each cell holds an index into the palette, packed at
/// the least number of bits `>= 2` that indexes every palette entry.
#[derive(Debug)]
pub struct Region {
    position: Coordinates,
    size: Coordinates,
    pub entities: Vec<serde_json::Value>,
    pub tile_entities: Vec<serde_json::Value>,
    pub pending_block_ticks: Vec<serde_json::Value>,
    pub pending_fluid_ticks: Vec<serde_json::Value>,
    block_state_palette: Vec<BlockState>,
    block_states: Vec<u64>,
}

impl Region {
    pub closed spec fn spec_position(&self) -> Coordinates {
        self.position
    }

    pub closed spec fn spec_size(&self) -> Coordinates {
        self.size
    }

    pub closed spec fn spec_palette(&self) -> Seq<BlockState> {
        self.block_state_palette@
    }

    pub closed spec fn spec_words(&self) -> Seq<u64> {
        self.block_states@
    }

    /// The payload lists, which the cell operations leave alone.
    pub closed spec fn payloads(&self) -> (
        Seq<serde_json::Value>,
        Seq<serde_json::Value>,
        Seq<serde_json::Value>,
        Seq<serde_json::Value>,
    ) {
        (self.entities@, self.tile_entities@, self.pending_block_ticks@, self.pending_fluid_ticks@)
    }

    pub open spec fn spec_volume(&self) -> nat {
        volume(self.spec_size())
    }

    /// Bits per cell.
    pub open spec fn spec_bits(&self) -> nat {
        required_bits(self.spec_palette().len())
    }

    /// The palette index held by cell `i`.
    pub open spec fn cell(&self, i: nat) -> nat {
        cell_value(self.spec_words(), i, self.spec_bits())
    }

    /// The block state of cell `i`.
    pub open spec fn block_at(&self, i: nat) -> BlockState {
        self.spec_palette()[self.cell(i) as int]
    }

    /// What the region shows: the block state of each cell, in packed order.
    pub open spec fn cells(&self) -> Seq<BlockStateView> {
        Seq::new(self.spec_volume(), |i: int| self.block_at(i as nat)@)
    }

    /// The region's invariant: sizes within bounds, palette entries well
    /// formed and distinct, `ceil(volume * bits / 64)` words, and every cell
    /// an index into the palette.
    pub open spec fn wf(&self) -> bool {
        &&& self.spec_volume() <= MAX_CELLS
        &&& self.spec_palette().len() <= MAX_PALETTE
        &&& forall|k: int| 0 <= k < self.spec_palette().len() ==> #[trigger] self.spec_palette()[k].wf()
        &&& forall|j: int, k: int|
            0 <= j < k < self.spec_palette().len() ==> self.spec_palette()[j]@ != self.spec_palette()[k]@
        &&& self.spec_words().len() == words_for(self.spec_volume(), self.spec_bits())
        &&& forall|i: nat| i < self.spec_volume() ==> #[trigger] self.cell(i) < self.spec_palette().len()
    }

    /// Returns the position of the region.
    pub fn position(&self) -> (r: Coordinates)
        ensures
            r == self.spec_position(),
    {
        self.position
    }

    /// Returns the size of the region; a negative component gives the
    /// orientation.
    pub fn size(&self) -> (r: Coordinates)
        ensures
            r == self.spec_size(),
    {
        self.size
    }

    /// Returns the palette.
    pub fn palette(&self) -> (r: &Vec<BlockState>)
        ensures
            r@ == self.spec_palette(),
    {
        &self.block_state_palette
    }

    /// Returns the packed words.
    pub fn block_states(&self) -> (r: &Vec<u64>)
        ensures
            r@ == self.spec_words(),
    {
        &self.block_states
    }

    /// Returns the number of bits per cell.
    pub fn bits_per_cell(&self) -> (r: u64)
        requires
            self.wf(),
        ensures
            r == self.spec_bits(),
            2 <= r <= 32,
    {
        bits_for_len(self.block_state_palette.len())
    }

    /// Returns the number of cells.
    pub fn calc_volume(&self) -> (r: u64)
        requires
            self.wf(),
        ensures
            r == self.spec_volume(),
    {
        let sx = extent_of(self.size.x);
        let sy = extent_of(self.size.y);
        let sz = extent_of(self.size.z);
        assert(sx * sy <= 0x8000_0000 * 0x8000_0000) by (nonlinear_arith)
            requires
                sx <= 0x8000_0000,
                sy <= 0x8000_0000,
        ;
        sx * sy * sz
    }

    /// Returns the position of `coords` in the packed order, or
    /// `OutOfBounds`.
    pub fn get_3d_index(&self, coords: Coordinates) -> (r: Result<u64, RegionError>)
        requires
            self.wf(),
        ensures
            r is Ok <==> in_bounds(self.spec_size(), coords),
            r matches Ok(i) ==> i == linear_index(self.spec_size(), coords) && i
                < self.spec_volume(),
            r matches Err(e) ==> e == RegionError::OutOfBounds,
    {
        let sx = extent_of(self.size.x);
        let sy = extent_of(self.size.y);
        let sz = extent_of(self.size.z);
        if coords.x < 0 || coords.y < 0 || coords.z < 0 {
            return Err(RegionError::OutOfBounds);
        }
        let x = coords.x as u64;
        let y = coords.y as u64;
        let z = coords.z as u64;
        if x >= sx || y >= sy || z >= sz {
            return Err(RegionError::OutOfBounds);
        }
        proof {
            lemma_index_in_volume(x as nat, y as nat, z as nat, sx as nat, sy as nat, sz as nat);
        }
        let layer = sx * sz;
        Ok(y * layer + z * sx + x)
    }

    /// Returns the palette index held by cell `index`.
    pub fn get_palette_index(&self, index: u64) -> (r: usize)
        requires
            self.wf(),
            index < self.spec_volume(),
        ensures
            r == self.cell(index as nat),
    {
        let bits = self.bits_per_cell();
        proof {
            self.lemma_cell_fits(index as nat);
        }
        let v = read_cell(&self.block_states, index, bits);
        assert(self.cell(index as nat) < self.spec_palette().len());
        v as usize
    }

    /// Cell `i`'s field lies within the words.
    proof fn lemma_cell_fits(&self, i: nat)
        requires
            self.wf(),
            i < self.spec_volume(),
        ensures
            (i + 1) * self.spec_bits() <= 64 * self.spec_words().len(),
            (i + 1) * self.spec_bits() <= u64::MAX,
            self.spec_bits() <= 32,
    {
        let v = self.spec_volume();
        let b = self.spec_bits();
        lemma_required_bits_spec(self.spec_palette().len());
        vstd::arithmetic::power2::lemma2_to64();
        lemma_required_bits_bound(self.spec_palette().len(), 32);
        assert((i + 1) * b <= v * b) by (nonlinear_arith)
            requires
                i < v,
        ;
        assert(v * b <= MAX_CELLS * 32) by (nonlinear_arith)
            requires
                v <= MAX_CELLS,
                b <= 32,
        ;
    }

    /// Returns the block state at `position`, or `OutOfBounds`.
    pub fn get_block(&self, position: Coordinates) -> (r: Result<&BlockState, RegionError>)
        requires
            self.wf(),
        ensures
            r is Ok <==> in_bounds(self.spec_size(), position),
            r matches Ok(b) ==> *b == self.block_at(linear_index(self.spec_size(), position) as nat),
            r matches Err(e) ==> e == RegionError::OutOfBounds,
    {
        match self.get_3d_index(position) {
            Ok(index) => {
                let p = self.get_palette_index(index);
                Ok(&self.block_state_palette[p])
            },
            Err(e) => Err(e),
        }
    }

    /// Returns the palette entry shown at `position` for editing, or
    /// `OutOfBounds`.
    ///
    /// The entry is shared: an edit changes every cell that shows it. The
    /// region stays well formed where the edited entry is well formed and
    /// differs from every other entry.
    pub fn get_block_mut(&mut self, position: Coordinates) -> (r: Result<
        &mut BlockState,
        RegionError,
    >)
        requires
            old(self).wf(),
        ensures
            r is Ok <==> in_bounds(old(self).spec_size(), position),
            r matches Err(e) ==> e == RegionError::OutOfBounds && *final(self) == *old(self),
            r matches Ok(m) ==> {
                let k = old(self).cell(linear_index(old(self).spec_size(), position) as nat) as int;
                &&& *m == old(self).spec_palette()[k]
                &&& final(self).spec_palette() == old(self).spec_palette().update(k, *final(m))
                &&& final(self).spec_words() == old(self).spec_words()
                &&& final(self).spec_size() == old(self).spec_size()
                &&& final(self).spec_position() == old(self).spec_position()
                &&& final(self).payloads() == old(self).payloads()
                &&& (final(m).wf() && forall|j: int|
                    0 <= j < old(self).spec_palette().len() && j != k
                        ==> old(self).spec_palette()[j]@ != final(m)@) ==> final(self).wf()
            },
    {
        match self.get_3d_index(position) {
            Ok(index) => {
                let p = self.get_palette_index(index);
                proof {
                    Self::lemma_replace_entry(*self, p as int);
                }
                Ok(&mut self.block_state_palette[p])
            },
            Err(e) => Err(e),
        }
    }

    /// A region whose palette entry `k` was replaced by a well-formed state
    /// that differs from every other entry is well formed.
    proof fn lemma_replace_entry(before: Region, k: int)
        requires
            before.wf(),
            0 <= k < before.spec_palette().len(),
        ensures
            forall|after: Region|
                #![trigger after.wf()]
                after.spec_words() == before.spec_words() && after.spec_size()
                    == before.spec_size() && after.spec_palette().len()
                    == before.spec_palette().len() && (forall|j: int|
                    0 <= j < before.spec_palette().len() && j != k ==> after.spec_palette()[j]
                        == before.spec_palette()[j]) && after.spec_palette()[k].wf() && (forall|
                    j: int,
                |
                    0 <= j < before.spec_palette().len() && j != k ==> before.spec_palette()[j]@
                        != after.spec_palette()[k]@) ==> after.wf(),
    {
        assert forall|after: Region|
            after.spec_words() == before.spec_words() && after.spec_size() == before.spec_size()
                && after.spec_palette().len() == before.spec_palette().len() && (forall|j: int|
                0 <= j < before.spec_palette().len() && j != k ==> after.spec_palette()[j]
                    == before.spec_palette()[j]) && after.spec_palette()[k].wf() && (forall|j: int|
                0 <= j < before.spec_palette().len() && j != k ==> before.spec_palette()[j]@
                    != after.spec_palette()[k]@) implies #[trigger] after.wf() by {
            assert forall|i: nat| i < after.spec_volume() implies #[trigger] after.cell(i)
                < after.spec_palette().len() by {
                assert(before.cell(i) < before.spec_palette().len());
            }
            assert forall|a: int|
                0 <= a < after.spec_palette().len() implies #[trigger] after.spec_palette()[a].wf() by {
                if a != k {
                    assert(before.spec_palette()[a].wf());
                }
            }
            assert forall|a: int, b: int|
                0 <= a < b < after.spec_palette().len() implies after.spec_palette()[a]@
                != after.spec_palette()[b]@ by {
                if a != k && b != k {
                    assert(before.spec_palette()[a]@ != before.spec_palette()[b]@);
                }
            }
        }
    }

    /// The position in the palette of an entry equal to `state`, if any.
    fn find_in_palette(&self, state: &BlockState) -> (r: Option<usize>)
        requires
            self.wf(),
            state.wf(),
        ensures
            r matches Some(k) ==> k < self.spec_palette().len() && self.spec_palette()[k as int]@
                == state@,
            r is None ==> forall|k: int|
                0 <= k < self.spec_palette().len() ==> self.spec_palette()[k]@ != state@,
    {
        let mut k: usize = 0;
        while k < self.block_state_palette.len()
            invariant
                self.wf(),
                state.wf(),
                k <= self.spec_palette().len(),
                forall|j: int| 0 <= j < k ==> self.spec_palette()[j]@ != state@,
            decreases self.spec_palette().len() - k,
        {
            assert(self.spec_palette()[k as int].wf());
            if self.block_state_palette[k].same_state(state) {
                return Some(k);
            }
            k = k + 1;
        }
        None
    }

    /// Sets the cell at `position` to `block`, or returns `OutOfBounds` and
    /// changes nothing.
    ///
    /// A state not yet in the palette is appended to it; where the palette
    /// then outgrows the bits per cell, every cell is first re-packed one bit
    /// wider. No other cell changes the state it shows.
    pub fn set_block(&mut self, position: Coordinates, block: BlockState) -> (r: Result<
        (),
        RegionError,
    >)
        requires
            old(self).wf(),
            block.wf(),
            old(self).spec_palette().len() < MAX_PALETTE,
        ensures
            final(self).wf(),
            r is Ok <==> in_bounds(old(self).spec_size(), position),
            r matches Err(e) ==> e == RegionError::OutOfBounds && *final(self) == *old(self),
            r is Ok ==> final(self).cells() == old(self).cells().update(
                linear_index(old(self).spec_size(), position),
                block@,
            ),
            r is Ok ==> if exists|k: int|
                0 <= k < old(self).spec_palette().len() && old(self).spec_palette()[k]@ == block@ {
                final(self).spec_palette() == old(self).spec_palette()
            } else {
                final(self).spec_palette() == old(self).spec_palette().push(block)
            },
            final(self).spec_bits() != old(self).spec_bits() ==> forall|k: nat|
                final(self).spec_volume() * final(self).spec_bits() <= k < 64
                    * final(self).spec_words().len() ==> #[trigger] word_bit(
                    final(self).spec_words(),
                    k,
                ) == 0,
            final(self).spec_size() == old(self).spec_size(),
            final(self).spec_position() == old(self).spec_position(),
            final(self).payloads() == old(self).payloads(),
    {
        let index = match self.get_3d_index(position) {
            Ok(index) => index,
            Err(e) => return Err(e),
        };
        let ghost before = *self;
        let ghost target = block@;
        let ghost volume = self.spec_volume();
        let len = self.block_state_palette.len();
        let bits = bits_for_len(len);
        proof {
            self.lemma_cell_fits(index as nat);
        }
        let (value, width) = match self.find_in_palette(&block) {
            Some(k) => (k as u64, bits),
            None => {
                let wider = bits_for_len(len + 1);
                proof {
                    lemma_required_bits_monotone(len as nat);
                }
                // the width grows exactly when the palette holds a power of
                // two entries, four or more (see lemma_required_bits_growth)
                if wider != bits {
                    let cells = self.calc_volume();
                    proof {
                        self.lemma_cell_fits(0);
                        assert(volume * bits <= 64 * self.spec_words().len()) by (nonlinear_arith)
                            requires
                                self.spec_words().len() == (volume * bits + 63) / 64,
                        ;
                    }
                    self.block_states = widen(&self.block_states, cells, bits, wider);
                }
                self.block_state_palette.push(block);
                (len as u64, wider)
            },
        };
        proof {
            lemma_required_bits_spec(self.spec_palette().len());
            vstd::arithmetic::power2::lemma2_to64();
            lemma_fits_bits(value, width);
            lemma_cell_in_words(index as nat, volume, width as nat);
        }
        let ghost mid = self.spec_words();
        assert(mid.len() == words_for(volume, width as nat));
        write_cell(&mut self.block_states, index, value, width);
        proof {
            lemma_written_cell(mid, self.spec_words(), index as nat, width as nat, value);
            if width != bits {
                assert(forall|k: nat|
                    volume * width <= k < 64 * mid.len() ==> #[trigger] word_bit(mid, k) == 0);
                assert((index + 1) * width <= volume * width) by (nonlinear_arith)
                    requires
                        index < volume,
                ;
                lemma_field_end(index as nat, width as nat);
                assert forall|k: nat|
                    volume * width <= k < 64 * self.spec_words().len() implies #[trigger] word_bit(
                    self.spec_words(),
                    k,
                ) == 0 by {
                    assert(word_bit(mid, k) == 0);
                }
            }
            assert forall|i: nat| i < volume && i != index implies self.cell(i) == before.cell(i) by {
                lemma_cell_in_words(i, volume, width as nat);
                lemma_other_cell(mid, self.spec_words(), index as nat, i, width as nat, value);
            }
            assert(self.cells() =~= before.cells().update(index as int, target));
            assert(self.spec_volume() == volume);
            assert(self.spec_bits() == width);
            assert forall|i: nat| i < volume implies #[trigger] self.cell(i) < self.spec_palette().len() by {
                if i != index {
                    assert(before.cell(i) < before.spec_palette().len());
                }
            }
            assert(forall|k: int| 0 <= k < self.spec_palette().len() ==> #[trigger] self.spec_palette()[k].wf());
            assert(forall|j: int, k: int|
                0 <= j < k < self.spec_palette().len() ==> self.spec_palette()[j]@ != self.spec_palette()[k]@);
        }
        Ok(())
    }

    /// The coordinates of every cell whose state matches `pattern`, in
    /// packed order: by layer `y`, then row `z`, then `x`.
    pub fn find_block_positions<P: BlockStatePattern>(&self, pattern: &P) -> (r: Vec<Coordinates>)
        requires
            self.wf(),
            forall|k: int| 0 <= k < self.spec_palette().len() ==> pattern.answers(#[trigger] self.spec_palette()[k]),
        ensures
            forall|k: int|
                0 <= k < r@.len() ==> in_bounds(self.spec_size(), #[trigger] r@[k]) && pattern.outcome(
                    self.block_at(linear_index(self.spec_size(), r@[k]) as nat),
                    true,
                ),
            forall|j: int, k: int|
                0 <= j < k < r@.len() ==> linear_index(self.spec_size(), #[trigger] r@[j]) < linear_index(
                    self.spec_size(),
                    #[trigger] r@[k],
                ),
            forall|i: nat|
                i < self.spec_volume() ==> found_at(r@, self.spec_size(), i) || pattern.outcome(
                    #[trigger] self.block_at(i),
                    false,
                ),
    {
        let sx = extent_of(self.size.x);
        let sy = extent_of(self.size.y);
        let sz = extent_of(self.size.z);
        let cells = self.calc_volume();
        let mut r: Vec<Coordinates> = Vec::new();
        let mut i: u64 = 0;
        let mut x: u64 = 0;
        let mut y: u64 = 0;
        let mut z: u64 = 0;
        let ghost size = self.spec_size();
        proof {
            if cells > 0 {
                assert(sx > 0 && sy > 0 && sz > 0) by (nonlinear_arith)
                    requires
                        cells == sx * sy * sz,
                        cells > 0,
                ;
                assert(0 * (sx * sz) + 0 * sx + 0 == 0) by (nonlinear_arith);
            }
        }
        while i < cells
            invariant
                self.wf(),
                forall|k: int| 0 <= k < self.spec_palette().len() ==> pattern.answers(#[trigger] self.spec_palette()[k]),
                size == self.spec_size(),
                sx == extent(size.x),
                sy == extent(size.y),
                sz == extent(size.z),
                cells == sx * sy * sz,
                cells == self.spec_volume(),
                i <= cells,
                i < cells ==> x < sx && y < sy && z < sz && i == y * (sx * sz) + z * sx + x,
                forall|k: int|
                    0 <= k < r@.len() ==> in_bounds(size, #[trigger] r@[k]) && pattern.outcome(
                        self.block_at(linear_index(size, r@[k]) as nat),
                        true,
                    ) && linear_index(size, r@[k]) < i,
                forall|j: int, k: int|
                    0 <= j < k < r@.len() ==> linear_index(size, #[trigger] r@[j]) < linear_index(
                        size,
                        #[trigger] r@[k],
                    ),
                forall|i2: nat|
                    i2 < i ==> found_at(r@, size, i2) || pattern.outcome(
                        #[trigger] self.block_at(i2),
                        false,
                    ),
            decreases cells - i,
        {
            let p = self.get_palette_index(i);
            assert(self.spec_palette()[p as int] == self.block_at(i as nat));
            let hit = pattern.matches(&self.block_state_palette[p]);
            let ghost before = r@;
            if hit {
                let c = Coordinates { x: x as i32, y: y as i32, z: z as i32 };
                assert(linear_index(size, c) == i);
                r.push(c);
                proof {
                    assert forall|i2: nat| i2 < i + 1 implies found_at(r@, size, i2) || pattern.outcome(
                        #[trigger] self.block_at(i2),
                        false,
                    ) by {
                        if i2 == i {
                            assert(r@[before.len() as int] == c);
                        } else if found_at(before, size, i2) {
                            let k = choose|k: int| 0 <= k < before.len() && linear_index(size, before[k]) == i2;
                            assert(r@[k] == before[k]);
                        }
                    }
                }
            }
            proof {
                lemma_odometer(x as nat, y as nat, z as nat, sx as nat, sy as nat, sz as nat, i as nat);
            }
            i = i + 1;
            x = x + 1;
            if x == sx {
                x = 0;
                z = z + 1;
                if z == sz {
                    z = 0;
                    y = y + 1;
                }
            }
        }
        r
    }

    /// Assembles a region from its parts, as read from a file, with no
    /// payloads; `Malformed` where the parts do not fit together.
    pub fn from_parts(
        position: Coordinates,
        size: Coordinates,
        palette: Vec<BlockState>,
        block_states: Vec<u64>,
    ) -> (r: Result<Region, RegionError>)
        requires
            forall|k: int| 0 <= k < palette@.len() ==> #[trigger] palette@[k].wf(),
        ensures
            r is Ok <==> parts_fit(size, palette@, block_states@),
            r matches Ok(region) ==> {
                &&& region.wf()
                &&& region.spec_position() == position
                &&& region.spec_size() == size
                &&& region.spec_palette() == palette@
                &&& region.spec_words() == block_states@
                &&& region.payloads() == (
                    Seq::<serde_json::Value>::empty(),
                    Seq::<serde_json::Value>::empty(),
                    Seq::<serde_json::Value>::empty(),
                    Seq::<serde_json::Value>::empty(),
                )
            },
            r matches Err(e) ==> e == RegionError::Malformed,
    {
        let sx = extent_of(size.x);
        let sy = extent_of(size.y);
        let sz = extent_of(size.z);
        assert(sx * sy <= 0x8000_0000 * 0x8000_0000) by (nonlinear_arith)
            requires
                sx <= 0x8000_0000,
                sy <= 0x8000_0000,
        ;
        assert(sx * sy * sz <= 0x8000_0000 * 0x8000_0000 * 0x8000_0000) by (nonlinear_arith)
            requires
                sx * sy <= 0x8000_0000 * 0x8000_0000,
                sz <= 0x8000_0000,
        ;
        let big: u128 = (sx as u128) * (sy as u128) * (sz as u128);
        if big > MAX_CELLS as u128 {
            return Err(RegionError::Malformed);
        }
        let cells = big as u64;
        if palette.len() as u64 > MAX_PALETTE {
            return Err(RegionError::Malformed);
        }
        let n = palette.len();
        let mut j: usize = 0;
        while j < n
            invariant
                n == palette@.len(),
                j <= n,
                forall|k: int| 0 <= k < palette@.len() ==> #[trigger] palette@[k].wf(),
                forall|a: int, b: int| 0 <= a < b < n && a < j ==> palette@[a]@ != palette@[b]@,
            decreases n - j,
        {
            let mut k: usize = j + 1;
            while k < n
                invariant
                    n == palette@.len(),
                    j < k <= n,
                    forall|k2: int| 0 <= k2 < palette@.len() ==> #[trigger] palette@[k2].wf(),
                    forall|a: int, b: int| 0 <= a < b < n && a < j ==> palette@[a]@ != palette@[b]@,
                    forall|b: int| j < b < k ==> palette@[j as int]@ != #[trigger] palette@[b]@,
                decreases n - k,
            {
                assert(palette@[j as int].wf() && palette@[k as int].wf());
                if palette[j].same_state(&palette[k]) {
                    return Err(RegionError::Malformed);
                }
                k = k + 1;
            }
            j = j + 1;
        }
        let bits = bits_for_len(n);
        if block_states.len() != words_needed(cells, bits) {
            return Err(RegionError::Malformed);
        }
        let mut i: u64 = 0;
        while i < cells
            invariant
                i <= cells,
                cells == volume(size),
                cells <= MAX_CELLS,
                bits == required_bits(n as nat),
                2 <= bits <= 32,
                n == palette@.len(),
                block_states@.len() == words_for(cells as nat, bits as nat),
                forall|i2: nat| i2 < i ==> #[trigger] cell_value(block_states@, i2, bits as nat) < n,
            decreases cells - i,
        {
            proof {
                lemma_cell_in_words(i as nat, cells as nat, bits as nat);
            }
            let v = read_cell(&block_states, i, bits);
            if v >= n as u64 {
                return Err(RegionError::Malformed);
            }
            i = i + 1;
        }
        let region = Region {
            position,
            size,
            entities: Vec::new(),
            tile_entities: Vec::new(),
            pending_block_ticks: Vec::new(),
            pending_fluid_ticks: Vec::new(),
            block_state_palette: palette,
            block_states,
        };
        assert(region.payloads() == (
            Seq::<serde_json::Value>::empty(),
            Seq::<serde_json::Value>::empty(),
            Seq::<serde_json::Value>::empty(),
            Seq::<serde_json::Value>::empty(),
        ));
        Ok(region)
    }
}


/// Distinct cells of a region have distinct positions in the packed order.
pub proof fn lemma_linear_index_injective(size: Coordinates, a: Coordinates, b: Coordinates)
    requires
        in_bounds(size, a),
        in_bounds(size, b),
        linear_index(size, a) == linear_index(size, b),
    ensures
        a == b,
{
    let sx = extent(size.x) as int;
    let sz = extent(size.z) as int;
    let layer = sx * sz;
    let ra = a.z * sx + a.x;
    let rb = b.z * sx + b.x;
    lemma_index_in_volume(a.x as nat, a.y as nat, a.z as nat, sx as nat, extent(size.y), sz as nat);
    assert(ra < layer && rb < layer) by (nonlinear_arith)
        requires
            0 <= a.x < sx,
            0 <= a.z < sz,
            0 <= b.x < sx,
            0 <= b.z < sz,
            ra == a.z * sx + a.x,
            rb == b.z * sx + b.x,
            layer == sx * sz,
    ;
    assert(0 <= ra && 0 <= rb) by (nonlinear_arith)
        requires
            0 <= a.x,
            0 <= a.z,
            0 <= b.x,
            0 <= b.z,
            0 <= sx,
            ra == a.z * sx + a.x,
            rb == b.z * sx + b.x,
    ;
    let n = linear_index(size, a);
    assert(n == a.y * layer + ra);
    assert(n == b.y * layer + rb);
    lemma_fundamental_div_mod_converse_div(n, layer, a.y as int, ra);
    lemma_fundamental_div_mod_converse_div(n, layer, b.y as int, rb);
    lemma_fundamental_div_mod_converse_mod(n, layer, a.y as int, ra);
    lemma_fundamental_div_mod_converse_mod(n, layer, b.y as int, rb);
    lemma_fundamental_div_mod_converse_div(ra, sx, a.z as int, a.x as int);
    lemma_fundamental_div_mod_converse_div(ra, sx, b.z as int, b.x as int);
    lemma_fundamental_div_mod_converse_mod(ra, sx, a.z as int, a.x as int);
    lemma_fundamental_div_mod_converse_mod(ra, sx, b.z as int, b.x as int);
}

/// A cell inside the region has a position below its volume.
pub proof fn lemma_linear_index_bound(size: Coordinates, p: Coordinates)
    requires
        in_bounds(size, p),
    ensures
        0 <= linear_index(size, p) < volume(size),
{
    lemma_index_in_volume(
        p.x as nat,
        p.y as nat,
        p.z as nat,
        extent(size.x),
        extent(size.y),
        extent(size.z),
    );
}

/// Reading a cell just written gives the state written.
pub proof fn lemma_get_after_set(before: Region, after: Region, c: Coordinates, s: BlockState)
    requires
        before.wf(),
        in_bounds(before.spec_size(), c),
        after.spec_size() == before.spec_size(),
        after.cells() == before.cells().update(linear_index(before.spec_size(), c), s@),
    ensures
        after.block_at(linear_index(after.spec_size(), c) as nat)@ == s@,
{
    let i = linear_index(before.spec_size(), c);
    lemma_linear_index_bound(before.spec_size(), c);
    assert(after.cells()[i] == s@);
}

/// Writing one cell leaves the state of every other cell as it was.
pub proof fn lemma_set_keeps_others(
    before: Region,
    after: Region,
    c1: Coordinates,
    c2: Coordinates,
    s: BlockState,
)
    requires
        before.wf(),
        in_bounds(before.spec_size(), c1),
        in_bounds(before.spec_size(), c2),
        c1 != c2,
        after.spec_size() == before.spec_size(),
        after.cells() == before.cells().update(linear_index(before.spec_size(), c1), s@),
    ensures
        after.block_at(linear_index(after.spec_size(), c2) as nat)@ == before.block_at(
            linear_index(before.spec_size(), c2) as nat,
        )@,
{
    let size = before.spec_size();
    lemma_linear_index_bound(size, c1);
    lemma_linear_index_bound(size, c2);
    if linear_index(size, c1) == linear_index(size, c2) {
        lemma_linear_index_injective(size, c1, c2);
    }
    let i2 = linear_index(size, c2);
    assert(linear_index(size, c1) != i2);
    assert(before.cells().len() == before.spec_volume());
    assert(after.cells()[i2] == before.cells()[i2]);
    assert(after.cells()[i2] == after.block_at(i2 as nat)@);
    assert(before.cells()[i2] == before.block_at(i2 as nat)@);
}

/// Writing back the state a cell shows changes no cell and leaves the
/// palette as it is.
pub proof fn lemma_set_own_state(before: Region, after: Region, c: Coordinates, s: BlockState)
    requires
        before.wf(),
        in_bounds(before.spec_size(), c),
        s@ == before.block_at(linear_index(before.spec_size(), c) as nat)@,
        after.spec_size() == before.spec_size(),
        after.cells() == before.cells().update(linear_index(before.spec_size(), c), s@),
        if exists|k: int|
            0 <= k < before.spec_palette().len() && before.spec_palette()[k]@ == s@ {
            after.spec_palette() == before.spec_palette()
        } else {
            after.spec_palette() == before.spec_palette().push(s)
        },
    ensures
        after.cells() == before.cells(),
        after.spec_palette() == before.spec_palette(),
{
    let size = before.spec_size();
    let i = linear_index(size, c);
    lemma_linear_index_bound(size, c);
    let k = before.cell(i as nat) as int;
    assert(0 <= k < before.spec_palette().len() && before.spec_palette()[k]@ == s@);
    assert(before.cells()[i] == s@);
    assert(after.cells() =~= before.cells());
}

/// The layout every region keeps: `ceil(volume * bits / 64)` words, where
/// `bits` is the least `b >= 2` with `|palette| <= 2^b`.
pub proof fn lemma_region_layout(r: Region)
    requires
        r.wf(),
    ensures
        r.spec_words().len() == (r.spec_volume() * r.spec_bits() + 63) / 64,
        r.spec_bits() >= 2,
        r.spec_palette().len() <= pow2(r.spec_bits()),
        r.spec_bits() > 2 ==> pow2((r.spec_bits() - 1) as nat) < r.spec_palette().len(),
{
    lemma_required_bits_spec(r.spec_palette().len());
    if r.spec_palette().len() <= 4 {
        assert(r.spec_bits() == 2);
    }
}

} // verus!
