//! A mask: which places of a rectangle are open for cells.

use vstd::prelude::*;

verus! {

/// A rectangle of bits, one for every place: an open place may hold a cell,
/// a closed one may not.
pub struct Mask {
    rows: usize,
    cols: usize,
    bits: Vec<Vec<bool>>,
}

impl View for Mask {
    type V = Seq<Seq<bool>>;

    closed spec fn view(&self) -> Seq<Seq<bool>> {
        Seq::new(self.bits@.len(), |r: int| self.bits@[r]@)
    }
}

/// A copy of a row with one bit set.
fn with_bit(row: &Vec<bool>, col: usize, open: bool) -> (changed: Vec<bool>)
    requires
        col < row.len(),
    ensures
        changed@ == row@.update(col as int, open),
{
    let mut changed: Vec<bool> = Vec::new();
    let mut i: usize = 0;
    while i < row.len()
        invariant
            i <= row.len(),
            col < row.len(),
            changed.len() == i,
            forall|j: int|
                0 <= j < i ==> #[trigger] changed[j] == (if j == col {
                    open
                } else {
                    row[j]
                }),
        decreases row.len() - i,
    {
        changed.push(
            if i == col {
                open
            } else {
                row[i]
            },
        );
        i += 1;
    }
    assert(changed@ =~= row@.update(col as int, open));
    changed
}

impl Mask {
    /// The number of rows.
    pub closed spec fn rows(&self) -> nat {
        self.rows as nat
    }

    /// The number of columns.
    pub closed spec fn cols(&self) -> nat {
        self.cols as nat
    }

    /// The mask has as many rows of bits as rows, each as long as the mask is
    /// wide.
    pub closed spec fn wf(&self) -> bool {
        &&& self.bits@.len() == self.rows
        &&& forall|r: int| 0 <= r < self.rows ==> (#[trigger] self.bits@[r]).len() == self.cols
    }

    /// Whether a place is open. A place outside the mask is not.
    pub open spec fn open_at(&self, row: int, col: int) -> bool {
        0 <= row < self.rows() && 0 <= col < self.cols() && self@[row][col]
    }

    /// A mask of the given size with every place open.
    pub fn new(rows: usize, cols: usize) -> (mask: Self)
        ensures
            mask.wf(),
            mask.rows() == rows,
            mask.cols() == cols,
            forall|r: int, c: int| 0 <= r < rows && 0 <= c < cols ==> mask.open_at(r, c),
    {
        let mut bits: Vec<Vec<bool>> = Vec::new();
        let mut r: usize = 0;
        while r < rows
            invariant
                r <= rows,
                bits.len() == r,
                forall|i: int| 0 <= i < r ==> (#[trigger] bits@[i]).len() == cols,
                forall|i: int, c: int| 0 <= i < r && 0 <= c < cols ==> #[trigger] bits@[i]@[c],
            decreases rows - r,
        {
            let mut line: Vec<bool> = Vec::new();
            let mut c: usize = 0;
            while c < cols
                invariant
                    c <= cols,
                    line.len() == c,
                    forall|j: int| 0 <= j < c ==> #[trigger] line[j],
                decreases cols - c,
            {
                line.push(true);
                c += 1;
            }
            bits.push(line);
            r += 1;
        }
        let mask = Self { rows, cols, bits };
        assert forall|r: int, c: int| 0 <= r < rows && 0 <= c < cols implies mask.open_at(r, c) by {
            assert(mask.bits@[r]@[c]);
        }
        mask
    }

    /// The mask that rows of bits describe. The first row says how wide the
    /// mask is; of a longer row the bits beyond that width are left out. The
    /// bits must come in at least one row, and no row may be shorter than
    /// the first.
    pub fn from_rows(bits: Vec<Vec<bool>>) -> (mask: Option<Self>)
        ensures
            mask is Some <==> bits.len() > 0 && forall|r: int|
                0 <= r < bits.len() ==> (#[trigger] bits@[r]).len() >= bits@[0].len(),
            mask is Some ==> {
                let m = mask->Some_0;
                &&& m.wf()
                &&& m.rows() == bits.len()
                &&& m.cols() == bits@[0].len()
                &&& m@ == Seq::new(bits@.len(), |r: int| bits@[r]@.take(bits@[0].len() as int))
            },
    {
        if bits.len() == 0 {
            return None;
        }
        let rows = bits.len();
        let cols = bits[0].len();
        let mut kept: Vec<Vec<bool>> = Vec::new();
        let mut r: usize = 0;
        while r < rows
            invariant
                r <= rows,
                rows == bits.len(),
                cols == bits@[0].len(),
                kept.len() == r,
                forall|i: int| 0 <= i < r ==> (#[trigger] bits@[i]).len() >= cols,
                forall|i: int| 0 <= i < r ==> (#[trigger] kept@[i])@ == bits@[i]@.take(cols as int),
            decreases rows - r,
        {
            if bits[r].len() < cols {
                return None;
            }
            let mut line: Vec<bool> = Vec::new();
            let mut c: usize = 0;
            while c < cols
                invariant
                    c <= cols,
                    r < bits.len(),
                    cols <= bits@[r as int].len(),
                    line@ == bits@[r as int]@.take(c as int),
                decreases cols - c,
            {
                line.push(bits[r][c]);
                assert(bits@[r as int]@.take(c + 1) =~= bits@[r as int]@.take(c as int).push(
                    bits@[r as int]@[c as int],
                ));
                c += 1;
            }
            kept.push(line);
            r += 1;
        }
        let mask = Self { rows, cols, bits: kept };
        assert(mask@ =~= Seq::new(bits@.len(), |r: int| bits@[r]@.take(bits@[0].len() as int)));
        Some(mask)
    }

    /// The number of rows.
    pub fn num_rows(&self) -> (n: usize)
        ensures
            n == self.rows(),
    {
        self.rows
    }

    /// The number of columns.
    pub fn num_cols(&self) -> (n: usize)
        ensures
            n == self.cols(),
    {
        self.cols
    }

    /// Whether a place of the mask is open.
    pub fn get(&self, row: usize, col: usize) -> (open: bool)
        requires
            self.wf(),
            row < self.rows(),
            col < self.cols(),
        ensures
            open == self.open_at(row as int, col as int),
    {
        self.bits[row][col]
    }

    /// Opens or closes a place of the mask.
    pub fn set(&mut self, row: usize, col: usize, open: bool)
        requires
            old(self).wf(),
            row < old(self).rows(),
            col < old(self).cols(),
        ensures
            final(self).wf(),
            final(self).rows() == old(self).rows(),
            final(self).cols() == old(self).cols(),
            forall|r: int, c: int|
                final(self).open_at(r, c) == (if r == row && c == col {
                    open
                } else {
                    old(self).open_at(r, c)
                }),
    {
        let changed = with_bit(&self.bits[row], col, open);
        self.bits.set(row, changed);
        assert forall|r: int, c: int|
            self.open_at(r, c) == (if r == row && c == col {
                open
            } else {
                old(self).open_at(r, c)
            }) by {
            if 0 <= r < self.rows && 0 <= c < self.cols {
                assert(self@[r] == self.bits@[r]@);
                assert(old(self)@[r] == old(self).bits@[r]@);
            }
        }
    }
}

} // verus!
