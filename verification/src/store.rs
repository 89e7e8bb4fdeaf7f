//! The database proper: payload digits in a grid of square coefficient matrices.

use vstd::prelude::*;
use vstd::arithmetic::div_mod::*;
use crate::arith::{div_ceil, lemma_div_ceil, lemma_quotient, spec_div_ceil};
use crate::database::DatabaseLayout;
use crate::encoding::{centre_i128, centred_residue, lemma_centred_residue};
use crate::error::PirError;
use crate::matrix::{lemma_flat_index, lemma_flat_index_injective, CoeffMatrix};
use crate::payload::Payload;

verus! {

/// The centred residue of `x` modulo `p`.
fn centre_i16(x: i64, p: u32) -> (r: i16)
    requires
        2 <= p <= 65536,
    ensures
        r == centred_residue(x as int, p as int),
{
    proof {
        lemma_centred_residue(x as int, p as int);
    }
    centre_i128(x as i128, p as i64) as i16
}

/// Payload digits, in `n x n` matrices: `ceil(rows / n)` by `ceil(cols / n)` of them.
#[derive(Debug)]
pub struct Database<P> {
    pub layout: DatabaseLayout<P>,
    pub n: usize,
    pub height: usize,
    pub blocks: Vec<CoeffMatrix>,
}

impl<P: Payload<[u8; 32]>> Database<P> {
    pub open spec fn spec_physical_rows(self) -> int {
        spec_div_ceil(self.layout.rows as int, self.n as int)
    }

    pub open spec fn spec_column_blocks(self) -> int {
        spec_div_ceil(self.layout.cols as int, self.n as int)
    }

    /// Shapes of the layout and of all blocks agree.
    pub open spec fn wf(self) -> bool {
        &&& self.layout.wf()
        &&& self.n >= 1
        &&& self.layout.fits(self.height as int)
        &&& self.blocks@.len() == self.spec_physical_rows() * self.spec_column_blocks()
        &&& forall|i: int|
            0 <= i < self.blocks@.len() ==> {
                &&& (#[trigger] self.blocks@[i]).wf()
                &&& self.blocks@[i].rows_out == self.n
                &&& self.blocks@[i].rows_in == self.n
            }
    }

    /// Whether a digit slot lies in the grid.
    pub open spec fn has_cell(self, row: int, col: int) -> bool {
        0 <= row < self.layout.rows && 0 <= col < self.layout.cols
    }

    /// Digit at row `row` of column `col`.
    pub open spec fn cell(self, row: int, col: int) -> i16 {
        let n = self.n as int;
        self.blocks@[(row / n) * self.spec_column_blocks() + col / n].entry(row % n, col % n)
    }

    /// Number of payloads that fit.
    pub open spec fn spec_capacity(self) -> int {
        self.layout.spec_num_payloads(self.height as int)
    }

    /// First row of a payload in the grid.
    pub open spec fn payload_row(self, index: int) -> int {
        let (matrix, column, row) = self.layout.spec_address(
            index,
            self.n as int,
            self.height as int,
        );
        matrix * self.height + row
    }

    /// Column of a payload in the grid.
    pub open spec fn payload_col(self, index: int) -> int {
        self.layout.spec_address(index, self.n as int, self.height as int).1
    }

    /// Stored digits of a payload.
    pub open spec fn digits_at(self, index: int) -> Seq<i16> {
        Seq::new(
            P::EXPONENT as nat,
            |k: int| self.cell(self.payload_row(index) + k, self.payload_col(index)),
        )
    }

    /// Record `i` stands in batch `i / cols` of column `i % cols`, modulo the radix.
    pub open spec fn holds_records(self, records: Seq<Vec<i64>>) -> bool {
        forall|i: int, j: int|
            0 <= i < records.len() && 0 <= j < self.height ==> self.cell(
                (i / self.layout.cols as int) * self.height + j,
                i % self.layout.cols as int,
            ) == centred_residue(#[trigger] records[i]@[j] as int, P::BASIS as int)
    }

    /// The payloads are those of `before`, but for the `count` from `start` on.
    pub open spec fn keeps_others(self, before: Self, start: int, count: int) -> bool {
        forall|index: int|
            0 <= index < before.spec_capacity() && !(start <= index < start + count)
                ==> #[trigger] self.digits_at(index) == before.digits_at(index)
    }

    /// Whether a digit slot belongs to payload `index`.
    pub open spec fn owns(self, index: int, row: int, col: int) -> bool {
        col == self.payload_col(index) && self.payload_row(index) <= row < self.payload_row(index)
            + P::EXPONENT
    }

    proof fn lemma_cell(self, row: int, col: int)
        requires
            self.wf(),
            self.has_cell(row, col),
        ensures
            ({
                let n = self.n as int;
                let cb = self.spec_column_blocks();
                &&& 0 <= row / n < self.spec_physical_rows()
                &&& 0 <= col / n < cb
                &&& 0 <= row % n < n
                &&& 0 <= col % n < n
                &&& 0 <= (row / n) * cb
                &&& 0 <= (row / n) * cb + col / n < self.blocks@.len()
                &&& cb >= 1
            }),
    {
        let n = self.n as int;
        lemma_fundamental_div_mod(row, n);
        lemma_fundamental_div_mod(col, n);
        lemma_mod_pos_bound(row, n);
        lemma_mod_pos_bound(col, n);
        lemma_div_pos_is_pos(row, n);
        lemma_div_pos_is_pos(col, n);
        lemma_block_bound(row, self.layout.rows as int, n);
        lemma_block_bound(col, self.layout.cols as int, n);
        lemma_flat_index(row / n, col / n, self.spec_physical_rows(), self.spec_column_blocks());
    }

    /// Distinct slots are stored apart.
    proof fn lemma_cells_apart(self, r1: int, c1: int, r2: int, c2: int)
        requires
            self.wf(),
            self.has_cell(r1, c1),
            self.has_cell(r2, c2),
            r1 != r2 || c1 != c2,
        ensures
            ({
                let n = self.n as int;
                let cb = self.spec_column_blocks();
                (r1 / n) * cb + c1 / n != (r2 / n) * cb + c2 / n || r1 % n != r2 % n || c1 % n != c2
                    % n
            }),
    {
        let n = self.n as int;
        let cb = self.spec_column_blocks();
        self.lemma_cell(r1, c1);
        self.lemma_cell(r2, c2);
        lemma_fundamental_div_mod(r1, n);
        lemma_fundamental_div_mod(c1, n);
        lemma_fundamental_div_mod(r2, n);
        lemma_fundamental_div_mod(c2, n);
        if (r1 / n) * cb + c1 / n == (r2 / n) * cb + c2 / n {
            lemma_flat_index_injective(r1 / n, c1 / n, r2 / n, c2 / n, cb);
        }
    }

    fn get_cell(&self, row: usize, col: usize) -> (r: i16)
        requires
            self.wf(),
            self.has_cell(row as int, col as int),
        ensures
            r == self.cell(row as int, col as int),
    {
        proof {
            self.lemma_cell(row as int, col as int);
        }
        let total: usize = self.blocks.len();
        let cb: usize = div_ceil(self.layout.cols, self.n);
        let at: usize = (row / self.n) * cb + col / self.n;
        self.blocks[at].at(row % self.n, col % self.n)
    }

    fn set_cell(&mut self, row: usize, col: usize, value: i16)
        requires
            old(self).wf(),
            old(self).has_cell(row as int, col as int),
        ensures
            final(self).wf(),
            final(self).layout == old(self).layout,
            final(self).n == old(self).n,
            final(self).height == old(self).height,
            final(self).cell(row as int, col as int) == value,
            forall|r: int, c: int|
                old(self).has_cell(r, c) && (r != row || c != col) ==> #[trigger] final(self).cell(
                    r,
                    c,
                ) == old(self).cell(r, c),
    {
        proof {
            self.lemma_cell(row as int, col as int);
            assert forall|r: int, c: int|
                old(self).has_cell(r, c) && (r != row || c != col) implies ({
                let n = self.n as int;
                let cb = self.spec_column_blocks();
                &&& ((r / n) * cb + c / n != (row as int / n) * cb + col as int / n || r % n
                    != row as int % n || c % n != col as int % n)
                &&& 0 <= (r / n) * cb + c / n < self.blocks@.len()
                &&& 0 <= r % n < n
                &&& 0 <= c % n < n
            }) by {
                self.lemma_cell(r, c);
                self.lemma_cells_apart(r, c, row as int, col as int);
            }
        }
        let total: usize = self.blocks.len();
        let cb: usize = div_ceil(self.layout.cols, self.n);
        let at: usize = (row / self.n) * cb + col / self.n;
        let r: usize = row % self.n;
        let c: usize = col % self.n;
        self.blocks[at].set(r, c, value);
    }

    /// Every digit slot of a payload lies in the grid.
    pub proof fn lemma_payload_in_grid(self, index: int)
        requires
            self.wf(),
            0 <= index < self.spec_capacity(),
        ensures
            0 <= self.payload_row(index),
            self.payload_row(index) + P::EXPONENT <= self.layout.rows,
            0 <= self.payload_col(index) < self.layout.cols,
    {
        let h = self.height as int;
        self.layout.lemma_address(index, self.n as int, h);
        self.layout.lemma_capacity(h);
        let (matrix, column, row) = self.layout.spec_address(index, self.n as int, h);
        let b = self.layout.spec_block_rows(h);
        assert(matrix * h >= 0 && matrix * h + h <= b * h) by (nonlinear_arith)
            requires
                0 <= matrix,
                matrix + 1 <= b,
                h >= 1,
        ;
    }

    /// No digit slot belongs to two payloads.
    pub proof fn law_slots_are_exclusive(self, i: int, j: int, row: int, col: int)
        requires
            self.wf(),
            0 <= i < self.spec_capacity(),
            0 <= j < self.spec_capacity(),
            self.owns(i, row, col),
            self.owns(j, row, col),
        ensures
            i == j,
    {
        let h = self.height as int;
        let n = self.n as int;
        self.layout.lemma_address(i, n, h);
        self.layout.lemma_address(j, n, h);
        let (mi, ci, ri) = self.layout.spec_address(i, n, h);
        let (mj, cj, rj) = self.layout.spec_address(j, n, h);
        let di = row - self.payload_row(i);
        let dj = row - self.payload_row(j);
        lemma_quotient(row, h, mi, ri + di);
        lemma_quotient(row, h, mj, rj + dj);
        self.layout.law_payloads_disjoint(i, j, n, h, di, dj);
    }

    /// Writes the digits of one payload.
    fn write_payload(&mut self, index: usize, value: &[u8; 32])
        requires
            old(self).wf(),
            index < old(self).spec_capacity(),
        ensures
            final(self).wf(),
            final(self).layout == old(self).layout,
            final(self).n == old(self).n,
            final(self).height == old(self).height,
            forall|k: int|
                0 <= k < P::EXPONENT ==> #[trigger] final(self).cell(
                    old(self).payload_row(index as int) + k,
                    old(self).payload_col(index as int),
                ) == P::digits_of(*value)[k],
            forall|r: int, c: int|
                old(self).has_cell(r, c) && !old(self).owns(index as int, r, c)
                    ==> #[trigger] final(self).cell(r, c) == old(self).cell(r, c),
    {
        proof {
            self.lemma_payload_in_grid(index as int);
            P::law_shape();
            P::law_roundtrip(*value, *value);
        }
        let mut digits: Vec<i16> = vec![0i16; P::EXPONENT];
        P::encode(digits.as_mut_slice(), *value);
        let place = self.layout.address(index, self.n, self.height);
        let ghost before = *self;
        let ghost row0 = before.payload_row(index as int);
        let ghost col0 = before.payload_col(index as int);
        proof {
            let h = self.height as int;
            assert(place.matrix * h >= 0) by (nonlinear_arith)
                requires
                    place.matrix >= 0,
                    h >= 0,
            ;
        }
        let first: usize = place.matrix * self.height + place.row_offset;
        let mut k: usize = 0;
        while k < P::EXPONENT
            invariant
                k <= P::EXPONENT,
                self.wf(),
                self.layout == before.layout,
                self.n == before.n,
                self.height == before.height,
                digits@ == P::digits_of(*value),
                digits@.len() == P::EXPONENT,
                first == row0,
                place.column == col0,
                row0 + P::EXPONENT <= before.layout.rows,
                0 <= row0,
                0 <= col0 < before.layout.cols,
                forall|j: int|
                    0 <= j < k ==> #[trigger] self.cell(row0 + j, col0) == P::digits_of(*value)[j],
                forall|r: int, c: int|
                    before.has_cell(r, c) && !(c == col0 && row0 <= r < row0 + k)
                        ==> #[trigger] self.cell(r, c) == before.cell(r, c),
            decreases P::EXPONENT - k,
        {
            self.set_cell(first + k, place.column, digits[k]);
            k = k + 1;
        }
    }

    /// Writes `values` to the payloads from `start` on. Digits of all other payloads,
    /// and the slack rows, stay as they are.
    pub fn encode_shard(&mut self, start: usize, values: &[[u8; 32]])
        requires
            old(self).wf(),
            start + values@.len() <= old(self).spec_capacity(),
        ensures
            final(self).wf(),
            final(self).layout == old(self).layout,
            final(self).n == old(self).n,
            final(self).height == old(self).height,
            forall|i: int|
                0 <= i < values@.len() ==> #[trigger] final(self).digits_at(start + i)
                    == P::digits_of(values@[i]),
            final(self).stores(start as int, values@),
            final(self).keeps_others(*old(self), start as int, values@.len() as int),
            forall|r: int, c: int|
                old(self).has_cell(r, c) && (forall|i: int|
                    0 <= i < values@.len() ==> !#[trigger] old(self).owns(start + i, r, c))
                    ==> #[trigger] final(self).cell(r, c) == old(self).cell(r, c),
    {
        let ghost before = *self;
        let mut i: usize = 0;
        while i < values.len()
            invariant
                i <= values@.len(),
                before.wf(),
                self.wf(),
                self.layout == before.layout,
                self.n == before.n,
                self.height == before.height,
                start + values@.len() <= before.spec_capacity(),
                forall|j: int|
                    0 <= j < i ==> #[trigger] self.digits_at(start + j) == P::digits_of(values@[j]),
                forall|r: int, c: int|
                    before.has_cell(r, c) && (forall|j: int|
                        0 <= j < i ==> !#[trigger] before.owns(start + j, r, c))
                        ==> #[trigger] self.cell(r, c) == before.cell(r, c),
            decreases values@.len() - i,
        {
            let ghost earlier = *self;
            let cap: usize = self.payload_capacity();
            self.write_payload(start + i, &values[i]);
            proof {
                assert forall|j: int| 0 <= j <= i implies #[trigger] self.digits_at(start + j)
                    == P::digits_of(values@[j]) by {
                    if j < i {
                        self.lemma_payload_in_grid(start + j);
                        let row = before.payload_row(start + j);
                        let col = before.payload_col(start + j);
                        assert forall|k: int| 0 <= k < P::EXPONENT implies #[trigger] self.cell(
                            row + k,
                            col,
                        ) == earlier.cell(row + k, col) by {
                            if earlier.owns(start + i, row + k, col) {
                                earlier.law_slots_are_exclusive(
                                    start + i,
                                    start + j,
                                    row + k,
                                    col,
                                );
                            }
                        }
                        assert(self.digits_at(start + j) =~= earlier.digits_at(start + j));
                    } else {
                        P::law_roundtrip(values@[j], values@[j]);
                        assert(self.digits_at(start + j) =~= P::digits_of(values@[j]));
                    }
                }
                assert forall|r: int, c: int|
                    before.has_cell(r, c) && (forall|j: int|
                        0 <= j <= i ==> !#[trigger] before.owns(
                            start + j,
                            r,
                            c,
                        )) implies #[trigger] self.cell(r, c) == before.cell(r, c) by {
                    assert(!before.owns(start + i, r, c));
                    assert(earlier.cell(r, c) == before.cell(r, c));
                }
            }
            i = i + 1;
        }
        proof {
            assert forall|index: int|
                0 <= index < before.spec_capacity() && !(start <= index < start
                    + values@.len()) implies #[trigger] self.digits_at(index)
                == before.digits_at(index) by {
                Self::law_shard_reads_back(
                    before,
                    *self,
                    start as int,
                    values@,
                    index,
                    arbitrary(),
                );
            }
        }
    }

    /// [`Self::encode_shard`], rejected without a change when it would write past the
    /// capacity.
    pub fn try_update_shard(&mut self, start: usize, values: &[[u8; 32]]) -> (r: Result<
        (),
        PirError,
    >)
        requires
            old(self).wf(),
        ensures
            match r {
                Ok(_) => {
                    &&& start + values@.len() <= old(self).spec_capacity()
                    &&& final(self).wf()
                    &&& final(self).layout == old(self).layout
                    &&& final(self).n == old(self).n
                    &&& final(self).height == old(self).height
                    &&& forall|i: int|
                        0 <= i < values@.len() ==> #[trigger] final(self).digits_at(start + i)
                            == P::digits_of(values@[i])
                    &&& final(self).stores(start as int, values@)
                    &&& final(self).keeps_others(*old(self), start as int, values@.len() as int)
                    &&& forall|r: int, c: int|
                        old(self).has_cell(r, c) && (forall|i: int|
                            0 <= i < values@.len() ==> !#[trigger] old(self).owns(start + i, r, c))
                            ==> #[trigger] final(self).cell(r, c) == old(self).cell(r, c)
                },
                Err(e) => {
                    &&& start + values@.len() > old(self).spec_capacity()
                    &&& *final(self) == *old(self)
                    &&& e == (PirError::ShardOutOfBounds {
                        start,
                        len: values@.len() as usize,
                        capacity: old(self).spec_capacity() as usize,
                    })
                },
            },
    {
        let capacity: usize = self.payload_capacity();
        let len: usize = values.len();
        if start > capacity || len > capacity - start {
            Err(PirError::ShardOutOfBounds { start, len, capacity })
        } else {
            self.encode_shard(start, values);
            Ok(())
        }
    }

    /// Payload `index`, decoded from its digits.
    pub fn payload(&self, index: usize) -> (r: [u8; 32])
        requires
            self.wf(),
            index < self.spec_capacity(),
            P::decodable(self.digits_at(index as int)),
        ensures
            P::stands_for(self.digits_at(index as int), r),
    {
        proof {
            self.lemma_payload_in_grid(index as int);
        }
        let place = self.layout.address(index, self.n, self.height);
        proof {
            let h = self.height as int;
            assert(place.matrix * h >= 0) by (nonlinear_arith)
                requires
                    place.matrix >= 0,
                    h >= 0,
            ;
        }
        let first: usize = place.matrix * self.height + place.row_offset;
        let mut digits: Vec<i16> = Vec::new();
        while digits.len() < P::EXPONENT
            invariant
                digits@.len() <= P::EXPONENT,
                self.wf(),
                first == self.payload_row(index as int),
                place.column == self.payload_col(index as int),
                first + P::EXPONENT <= self.layout.rows,
                place.column < self.layout.cols,
                forall|k: int|
                    0 <= k < digits@.len() ==> #[trigger] digits@[k] == self.digits_at(
                        index as int,
                    )[k],
            decreases P::EXPONENT - digits@.len(),
        {
            let k: usize = digits.len();
            let d: i16 = self.get_cell(first + k, place.column);
            digits.push(d);
        }
        assert(digits@ =~= self.digits_at(index as int));
        let mut block: [u8; 32] = [0u8; 32];
        P::decode(&mut block, digits.as_slice());
        block
    }

    /// A payload reads back as written, and writing a shard leaves the payloads outside
    /// it as they were.
    pub proof fn law_shard_reads_back(
        before: Self,
        after: Self,
        start: int,
        values: Seq<[u8; 32]>,
        index: int,
        read: [u8; 32],
    )
        requires
            before.wf(),
            after.wf(),
            0 <= start,
            start + values.len() <= before.spec_capacity(),
            after.layout == before.layout,
            after.n == before.n,
            after.height == before.height,
            forall|i: int|
                0 <= i < values.len() ==> #[trigger] after.digits_at(start + i) == P::digits_of(
                    values[i],
                ),
            forall|r: int, c: int|
                before.has_cell(r, c) && (forall|i: int|
                    0 <= i < values.len() ==> !#[trigger] before.owns(start + i, r, c))
                    ==> #[trigger] after.cell(r, c) == before.cell(r, c),
            0 <= index < before.spec_capacity(),
        ensures
            start <= index < start + values.len() ==> P::decodable(after.digits_at(index)),
            start <= index < start + values.len() && P::stands_for(after.digits_at(index), read)
                ==> read == values[index - start],
            !(start <= index < start + values.len()) ==> after.digits_at(index)
                == before.digits_at(index),
    {
        if start <= index < start + values.len() {
            let i = index - start;
            assert(after.digits_at(start + i) == P::digits_of(values[i]));
            P::law_roundtrip(values[i], read);
        } else {
            before.lemma_payload_in_grid(index);
            let row = before.payload_row(index);
            let col = before.payload_col(index);
            assert forall|k: int| 0 <= k < P::EXPONENT implies #[trigger] after.cell(row + k, col)
                == before.cell(row + k, col) by {
                assert forall|i: int| 0 <= i < values.len() implies !#[trigger] before.owns(
                    start + i,
                    row + k,
                    col,
                ) by {
                    if before.owns(start + i, row + k, col) {
                        before.law_slots_are_exclusive(start + i, index, row + k, col);
                    }
                }
                assert(before.has_cell(row + k, col));
            }
            assert(after.digits_at(index) =~= before.digits_at(index));
        }
    }

    /// Column `col` of logical matrix `batch`, top to bottom.
    pub fn record(&self, col: usize, batch: usize) -> (r: Vec<i64>)
        requires
            self.wf(),
            col < self.layout.cols,
            batch < self.layout.spec_block_rows(self.height as int),
        ensures
            r@.len() == self.height,
            forall|j: int|
                0 <= j < self.height ==> #[trigger] r@[j] == self.cell(
                    batch * self.height + j,
                    col as int,
                ),
    {
        proof {
            self.lemma_batch(batch as int);
        }
        let first: usize = batch * self.height;
        let mut out: Vec<i64> = Vec::new();
        while out.len() < self.height
            invariant
                out@.len() <= self.height,
                self.wf(),
                col < self.layout.cols,
                first == batch * self.height,
                first + self.height <= self.layout.rows,
                forall|j: int|
                    0 <= j < out@.len() ==> #[trigger] out@[j] == self.cell(first + j, col as int),
            decreases self.height - out@.len(),
        {
            let j: usize = out.len();
            let d: i16 = self.get_cell(first + j, col);
            out.push(d as i64);
        }
        out
    }

    proof fn lemma_batch(self, batch: int)
        requires
            self.wf(),
            0 <= batch < self.layout.spec_block_rows(self.height as int),
        ensures
            0 <= batch * self.height,
            batch * self.height + self.height <= self.layout.rows,
    {
        let h = self.height as int;
        self.layout.lemma_capacity(h);
        let b = self.layout.spec_block_rows(h);
        assert(0 <= batch * h && batch * h + h <= b * h) by (nonlinear_arith)
            requires
                0 <= batch,
                batch + 1 <= b,
                h >= 1,
        ;
    }

    /// Writes raw records, one column each: record `i` goes to column `i % cols` of
    /// matrix `i / cols`, every value reduced to its centred residue. Columns without a
    /// record stay as they are.
    pub fn encode(&mut self, records: &[Vec<i64>])
        requires
            old(self).wf(),
            records@.len() <= old(self).layout.spec_block_rows(old(self).height as int)
                * old(self).layout.cols,
            forall|i: int|
                0 <= i < records@.len() ==> (#[trigger] records@[i])@.len() == old(self).height,
        ensures
            final(self).wf(),
            final(self).layout == old(self).layout,
            final(self).n == old(self).n,
            final(self).height == old(self).height,
            final(self).holds_records(records@),
            forall|i: int, j: int|
                0 <= i < records@.len() && 0 <= j < old(self).height ==> final(self).cell(
                    (i / old(self).layout.cols as int) * old(self).height + j,
                    i % old(self).layout.cols as int,
                ) == centred_residue(#[trigger] records@[i]@[j] as int, P::BASIS as int),
            forall|r: int, c: int|
                old(self).has_cell(r, c) && (r / old(self).height as int) * old(self).layout.cols
                    + c >= records@.len() ==> #[trigger] final(self).cell(r, c) == old(self).cell(
                    r,
                    c,
                ),
    {
        let ghost before = *self;
        proof {
            P::law_shape();
        }
        let cols: usize = self.layout.cols;
        let height: usize = self.height;
        let mut i: usize = 0;
        while i < records.len()
            invariant
                i <= records@.len(),
                before.wf(),
                self.wf(),
                self.layout == before.layout,
                self.n == before.n,
                self.height == before.height,
                cols == before.layout.cols,
                height == before.height,
                2 <= P::BASIS <= 65536,
                records@.len() <= before.layout.spec_block_rows(height as int) * cols,
                forall|i: int|
                    0 <= i < records@.len() ==> (#[trigger] records@[i])@.len() == height,
                forall|a: int, j: int|
                    0 <= a < i && 0 <= j < height ==> self.cell(
                        (a / cols as int) * height + j,
                        a % cols as int,
                    ) == centred_residue(#[trigger] records@[a]@[j] as int, P::BASIS as int),
                forall|r: int, c: int|
                    before.has_cell(r, c) && (r / height as int) * cols + c >= i
                        ==> #[trigger] self.cell(r, c) == before.cell(r, c),
            decreases records@.len() - i,
        {
            let batch: usize = i / cols;
            let col: usize = i % cols;
            proof {
                let b = before.layout.spec_block_rows(height as int);
                lemma_fundamental_div_mod(i as int, cols as int);
                lemma_mod_pos_bound(i as int, cols as int);
                assert(batch < b) by (nonlinear_arith)
                    requires
                        i == cols * batch + col,
                        i < b * cols,
                        cols >= 1,
                        col >= 0,
                ;
                before.lemma_batch(batch as int);
            }
            let first: usize = batch * height;
            let ghost earlier = *self;
            let mut j: usize = 0;
            while j < height
                invariant
                    j <= height,
                    i < records@.len(),
                    before.wf(),
                    self.wf(),
                    self.layout == before.layout,
                    self.n == before.n,
                    self.height == before.height,
                    cols == before.layout.cols,
                    height == before.height,
                    2 <= P::BASIS <= 65536,
                    records@[i as int]@.len() == height,
                    first == batch * height,
                    first + height <= before.layout.rows,
                    col < cols,
                    forall|a: int|
                        0 <= a < j ==> self.cell(first + a, col as int) == centred_residue(
                            #[trigger] records@[i as int]@[a] as int,
                            P::BASIS as int,
                        ),
                    forall|r: int, c: int|
                        before.has_cell(r, c) && !(c == col && first <= r < first + j)
                            ==> #[trigger] self.cell(r, c) == earlier.cell(r, c),
                decreases height - j,
            {
                let value: i16 = centre_i16(records[i][j], P::BASIS);
                self.set_cell(first + j, col, value);
                j = j + 1;
            }
            proof {
                assert forall|a: int, j: int|
                    0 <= a <= i && 0 <= j < height implies self.cell(
                    (a / cols as int) * height + j,
                    a % cols as int,
                ) == centred_residue(#[trigger] records@[a]@[j] as int, P::BASIS as int) by {
                    if a < i {
                        before.lemma_record_place(a, j);
                        let ab = a / cols as int;
                        let ac = a % cols as int;
                        let r = ab * height + j;
                        assert(ab <= batch && 0 <= ab) by {
                            lemma_div_is_ordered(a, i as int, cols as int);
                            lemma_div_pos_is_pos(a, cols as int);
                        }
                        before.lemma_batch(ab);
                        assert(before.has_cell(r, ac));
                        if ac == col && first <= r < first + height {
                            lemma_quotient(r, height as int, batch as int, r - first);
                            lemma_fundamental_div_mod(a, cols as int);
                            lemma_fundamental_div_mod(i as int, cols as int);
                        }
                        assert(self.cell(r, ac) == earlier.cell(r, ac));
                    }
                }
                assert forall|r: int, c: int|
                    before.has_cell(r, c) && (r / height as int) * cols + c >= i
                        + 1 implies #[trigger] self.cell(r, c) == before.cell(r, c) by {
                    if c == col && first <= r < first + height {
                        lemma_quotient(r, height as int, batch as int, r - first);
                        lemma_fundamental_div_mod(i as int, cols as int);
                        assert(cols * batch == batch * cols) by (nonlinear_arith);
                    }
                }
            }
            i = i + 1;
        }
    }

    /// A record's column and matrix are determined by its digit slots.
    proof fn lemma_record_place(self, a: int, j: int)
        requires
            self.wf(),
            0 <= a,
            0 <= j < self.height,
        ensures
            ((a / self.layout.cols as int) * self.height + j) / self.height as int == a
                / self.layout.cols as int,
            0 <= a % (self.layout.cols as int) < self.layout.cols,
    {
        lemma_mod_pos_bound(a, self.layout.cols as int);
        lemma_quotient(
            (a / self.layout.cols as int) * self.height + j,
            self.height as int,
            a / self.layout.cols as int,
            j,
        );
    }

    /// An all-zero database of the given shape.
    pub fn instantiate(layout: DatabaseLayout<P>, n: usize, height: usize) -> (r: Self)
        requires
            layout.wf(),
            n >= 1,
            layout.fits(height as int),
            n * n <= usize::MAX,
            spec_div_ceil(layout.rows as int, n as int) * spec_div_ceil(
                layout.cols as int,
                n as int,
            ) <= usize::MAX,
        ensures
            r.wf(),
            r.layout == layout,
            r.n == n,
            r.height == height,
            forall|row: int, col: int| r.has_cell(row, col) ==> #[trigger] r.cell(row, col) == 0,
    {
        let physical_rows: usize = div_ceil(layout.rows, n);
        let column_blocks: usize = div_ceil(layout.cols, n);
        let total: usize = physical_rows * column_blocks;
        let mut blocks: Vec<CoeffMatrix> = Vec::new();
        while blocks.len() < total
            invariant
                blocks@.len() <= total,
                n * n <= usize::MAX,
                forall|i: int|
                    0 <= i < blocks@.len() ==> {
                        &&& (#[trigger] blocks@[i]).wf()
                        &&& blocks@[i].rows_out == n
                        &&& blocks@[i].rows_in == n
                        &&& forall|row: int, col: int|
                            blocks@[i].contains(row, col) ==> blocks@[i].entry(row, col) == 0
                    },
            decreases total - blocks@.len(),
        {
            blocks.push(CoeffMatrix::zeros(n, n));
        }
        let r = Database { layout, n, height, blocks };
        proof {
            assert forall|row: int, col: int| r.has_cell(row, col) implies #[trigger] r.cell(
                row,
                col,
            ) == 0 by {
                r.lemma_cell(row, col);
                let at = (row / n as int) * r.spec_column_blocks() + col / n as int;
                assert(r.blocks@[at].contains(row % n as int, col % n as int));
            }
        }
        r
    }

    /// The stored matrices, block-row after block-row.
    pub fn matrices(&self) -> (r: &[CoeffMatrix])
        ensures
            r@ == self.blocks@,
    {
        self.blocks.as_slice()
    }

    pub fn payload_capacity(&self) -> (r: usize)
        requires
            self.wf(),
        ensures
            r == self.spec_capacity(),
    {
        self.layout.num_payloads(self.height)
    }

    pub fn cols(&self) -> (r: usize)
        ensures
            r == self.layout.cols,
    {
        self.layout.cols
    }

    /// Number of logical matrices of `height` rows.
    pub fn t(&self) -> (r: usize)
        requires
            self.wf(),
        ensures
            r == self.layout.spec_block_rows(self.height as int),
    {
        self.layout.rows / self.height
    }

    pub fn column_blocks(&self) -> (r: usize)
        requires
            self.wf(),
        ensures
            r == self.spec_column_blocks(),
    {
        div_ceil(self.layout.cols, self.n)
    }

    /// Block-rows of matrices.
    pub fn physical_rows(&self) -> (r: usize)
        requires
            self.wf(),
        ensures
            r == self.spec_physical_rows(),
    {
        div_ceil(self.layout.rows, self.n)
    }

    /// Logical matrices stored in one block-row.
    pub fn rows_per_physical_group(&self) -> (r: usize)
        requires
            self.wf(),
        ensures
            r == self.n as int / self.height as int,
    {
        self.n / self.height
    }

    /// Matrix of block-row `row_group` and column block `block`.
    pub fn physical_block(&self, row_group: usize, block: usize) -> (r: &CoeffMatrix)
        requires
            self.wf(),
            row_group < self.spec_physical_rows(),
            block < self.spec_column_blocks(),
        ensures
            *r == self.blocks@[row_group * self.spec_column_blocks() + block],
            r.wf(),
            r.rows_out == self.n,
            r.rows_in == self.n,
    {
        proof {
            lemma_flat_index(
                row_group as int,
                block as int,
                self.spec_physical_rows(),
                self.spec_column_blocks(),
            );
        }
        let total: usize = self.blocks.len();
        let cb: usize = div_ceil(self.layout.cols, self.n);
        &self.blocks[row_group * cb + block]
    }
}

/// The block of a position lies below the number of blocks.
pub proof fn lemma_block_bound(x: int, total: int, n: int)
    requires
        0 <= x < total,
        n >= 1,
    ensures
        x / n < spec_div_ceil(total, n),
{
    lemma_div_ceil(total, n);
    lemma_fundamental_div_mod(x, n);
    lemma_mod_pos_bound(x, n);
    let q = x / n;
    let c = spec_div_ceil(total, n);
    assert(q < c) by (nonlinear_arith)
        requires
            x == n * q + x % n,
            0 <= x % n,
            x < total,
            total <= c * n,
            n >= 1,
    ;
}

/// A shard is written exactly where it lies within the capacity, and is rejected with its
/// place and the capacity elsewhere. What is written is stored payload by payload, and every
/// other payload stays; a rejected shard leaves the database as it was.
pub proof fn law_shards_within_capacity_are_written<P: Payload<[u8; 32]>>(
    db: &mut Database<P>,
    start: usize,
    values: &[[u8; 32]],
    capacity: usize,
    r: Result<(), PirError>,
    index: int,
)
    requires
        old(db).wf(),
        call_ensures(
            DatabaseLayout::<P>::num_payloads,
            (&old(db).layout, old(db).height),
            capacity,
        ),
        call_ensures(Database::<P>::try_update_shard, (db, start, values), r),
        0 <= index < capacity,
    ensures
        r is Ok <==> start + values@.len() <= capacity,
        r matches Err(e) ==> e == (PirError::ShardOutOfBounds {
            start,
            len: values@.len() as usize,
            capacity,
        }) && *final(db) == *old(db),
        r is Ok && start <= index < start + values@.len() ==> final(db).digits_at(index)
            == P::digits_of(values@[index - start]),
        r is Ok && !(start <= index < start + values@.len()) ==> final(db).digits_at(index)
            == old(db).digits_at(index),
{
    if r is Ok && start <= index < start + values@.len() {
        let i = index - start;
        assert(final(db).stores(start as int, values@));
        assert(final(db).digits_at(start as int + i) == P::digits_of(values@[i]));
    }
}

/// A written shard is stored payload by payload, and every other payload stays.
pub proof fn law_encoded_shard_is_stored<P: Payload<[u8; 32]>>(
    db: &mut Database<P>,
    start: usize,
    values: &[[u8; 32]],
    index: int,
)
    requires
        old(db).wf(),
        call_ensures(Database::<P>::encode_shard, (db, start, values), ()),
        0 <= index < old(db).spec_capacity(),
    ensures
        start <= index < start + values@.len() ==> final(db).digits_at(index) == P::digits_of(
            values@[index - start],
        ),
        !(start <= index < start + values@.len()) ==> final(db).digits_at(index) == old(
            db,
        ).digits_at(index),
{
    if start <= index < start + values@.len() {
        let i = index - start;
        assert(final(db).stores(start as int, values@));
        assert(final(db).digits_at(start as int + i) == P::digits_of(values@[i]));
    }
}

/// A record is read as it was encoded: record `i` is that of batch `i / cols` and column
/// `i % cols`, and its entries come back modulo the radix. What no record was written to stays
/// as it was.
pub proof fn law_records_read_back<P: Payload<[u8; 32]>>(
    db: &mut Database<P>,
    after: &Database<P>,
    records: &[Vec<i64>],
    col: usize,
    batch: usize,
    r: Vec<i64>,
    j: int,
)
    requires
        old(db).wf(),
        call_ensures(Database::<P>::encode, (db, records), ()),
        *after == *final(db),
        col < old(db).layout.cols,
        batch < old(db).layout.spec_block_rows(old(db).height as int),
        call_ensures(Database::<P>::record, (after, col, batch), r),
        0 <= j < old(db).height,
    ensures
        r@.len() == old(db).height,
        batch * old(db).layout.cols + col < records@.len() ==> (records@[batch * old(db).layout.cols
            + col]@[j] - r@[j]) % P::BASIS as int == 0,
        batch * old(db).layout.cols + col >= records@.len() ==> r@[j] == old(db).cell(
            batch * old(db).height + j,
            col as int,
        ),
{
    let before = *old(db);
    let i = batch * before.layout.cols + col;
    let h = before.height as int;
    P::law_shape();
    lemma_quotient(i, before.layout.cols as int, batch as int, col as int);
    assert(r@[j] == after.cell(batch * h + j, col as int));
    if i < records@.len() {
        assert(0 <= i) by (nonlinear_arith)
            requires
                i == batch * before.layout.cols + col,
                batch >= 0,
                before.layout.cols >= 0,
                col >= 0,
        ;
        lemma_centred_residue(records@[i]@[j] as int, P::BASIS as int);
        assert(after.holds_records(records@));
        assert(r@[j] == centred_residue(records@[i]@[j] as int, P::BASIS as int));
    } else {
        let row = batch * h + j;
        lemma_quotient(row, h, batch as int, j);
        lemma_fundamental_div_mod(before.layout.rows as int, h);
        lemma_mod_pos_bound(before.layout.rows as int, h);
        let t = before.layout.rows as int / h;
        assert(0 <= row < before.layout.rows) by (nonlinear_arith)
            requires
                row == batch * h + j,
                0 <= batch,
                batch + 1 <= t,
                0 <= j < h,
                before.layout.rows >= h * t,
        ;
        assert(before.has_cell(row, col as int));
    }
}

/// A payload is read as the block whose digits are stored for it, and as no other.
pub proof fn law_stored_block_is_read<P: Payload<[u8; 32]>>(
    db: &Database<P>,
    index: usize,
    value: [u8; 32],
    read: [u8; 32],
)
    requires
        db.digits_at(index as int) == P::digits_of(value),
        call_ensures(Database::<P>::payload, (db, index), read),
    ensures
        read == value,
{
    P::law_roundtrip(value, read);
}

} // verus!
