//! Two-dimensional tensors and embedding tables over bit patterns.
use vstd::prelude::*;

verus! {

broadcast use vstd::seq_lib::group_seq_properties;

/// A row-major tensor. Elements are IEEE 754 bit patterns.
pub struct Tensor2 {
    pub rows: usize,
    pub cols: usize,
    pub data: Vec<u32>,
}

proof fn lemma_index(r: int, c: int, rows: int, cols: int)
    requires
        0 <= r < rows,
        0 <= c < cols,
    ensures
        0 <= r * cols + c < rows * cols,
        0 <= r * cols,
{
    assert(0 <= r * cols + c < rows * cols && 0 <= r * cols) by (nonlinear_arith)
        requires
            0 <= r < rows,
            0 <= c < cols,
    ;
}

impl Tensor2 {
    pub open spec fn wf(self) -> bool {
        self.data@.len() == self.rows * self.cols
    }

    /// The element in a row and column.
    pub open spec fn at(self, r: int, c: int) -> u32 {
        self.data@[r * self.cols + c]
    }

    /// A tensor of zeros.
    pub fn zeros(rows: usize, cols: usize) -> (t: Self)
        requires
            rows * cols <= usize::MAX,
        ensures
            t.wf(),
            t.rows == rows,
            t.cols == cols,
            forall|i: int| 0 <= i < rows * cols ==> #[trigger] t.data@[i] == 0,
    {
        let n: usize = rows * cols;
        let mut data: Vec<u32> = Vec::new();
        while data.len() < n
            invariant
                data@.len() <= n,
                forall|i: int| 0 <= i < data@.len() ==> #[trigger] data@[i] == 0,
            decreases n - data.len(),
        {
            data.push(0);
        }
        Tensor2 { rows, cols, data }
    }

    /// A tensor from its rows, which all have one length.
    pub fn from_rows(rows: &[&[u32]]) -> (t: Self)
        requires
            forall|i: int| 0 <= i < rows@.len() ==> (#[trigger] rows@[i])@.len() == rows@[0]@.len(),
            rows@.len() > 0 ==> rows@.len() * rows@[0]@.len() <= usize::MAX,
        ensures
            t.wf(),
            t.rows == rows@.len(),
            t.cols == (if rows@.len() == 0 {
                0
            } else {
                rows@[0]@.len()
            }),
            forall|r: int, c: int|
                0 <= r < t.rows && 0 <= c < t.cols ==> #[trigger] t.at(r, c) == rows@[r]@[c],
    {
        let r: usize = rows.len();
        let c: usize = if r == 0 {
            0
        } else {
            rows[0].len()
        };
        let mut data: Vec<u32> = Vec::new();
        let mut i: usize = 0;
        while i < r
            invariant
                i <= r,
                r == rows@.len(),
                r > 0 ==> c == rows@[0]@.len(),
                forall|k: int| 0 <= k < r ==> (#[trigger] rows@[k])@.len() == c,
                data@.len() == i * c,
                forall|x: int, y: int|
                    0 <= x < i && 0 <= y < c ==> data@[x * c + y] == #[trigger] rows@[x]@[y],
            decreases r - i,
        {
            let row = rows[i];
            let ghost before = data@;
            let mut j: usize = 0;
            while j < c
                invariant
                    j <= c,
                    row@.len() == c,
                    data@ == before + row@.subrange(0, j as int),
                decreases c - j,
            {
                data.push(row[j]);
                j = j + 1;
                assert(row@.subrange(0, j as int) =~= row@.subrange(0, j - 1).push(row@[j - 1]));
            }
            proof {
                assert((i + 1) * c == i * c + c) by (nonlinear_arith);
                assert forall|x: int, y: int| 0 <= x < i + 1 && 0 <= y < c implies data@[x * c + y]
                    == #[trigger] rows@[x]@[y] by {
                    if x < i {
                        lemma_index(x, y, i as int, c as int);
                        assert(data@[x * c + y] == before[x * c + y]);
                    } else {
                        assert(data@[i * c + y] == row@[y]);
                    }
                }
            }
            i = i + 1;
        }
        let t = Tensor2 { rows: r, cols: c, data };
        t
    }

    /// A tensor from its elements, row by row.
    pub fn from_flat(rows: usize, cols: usize, data: Vec<u32>) -> (t: Self)
        requires
            data@.len() == rows * cols,
        ensures
            t.wf(),
            t.rows == rows,
            t.cols == cols,
            t.data@ == data@,
    {
        Tensor2 { rows, cols, data }
    }

    pub fn get(&self, r: usize, c: usize) -> (v: u32)
        requires
            self.wf(),
            r < self.rows,
            c < self.cols,
        ensures
            v == self.at(r as int, c as int),
    {
        proof {
            lemma_index(r as int, c as int, self.rows as int, self.cols as int);
            assert(self.data.len() == self.data@.len());
        }
        self.data[r * self.cols + c]
    }

    pub fn set(&mut self, r: usize, c: usize, v: u32)
        requires
            old(self).wf(),
            r < old(self).rows,
            c < old(self).cols,
        ensures
            final(self).wf(),
            final(self).rows == old(self).rows,
            final(self).cols == old(self).cols,
            final(self).at(r as int, c as int) == v,
            forall|x: int, y: int|
                0 <= x < old(self).rows && 0 <= y < old(self).cols && !(x == r && y == c)
                    ==> #[trigger] final(self).at(x, y) == old(self).at(x, y),
    {
        proof {
            lemma_index(r as int, c as int, self.rows as int, self.cols as int);
            assert(self.data.len() == self.data@.len());
        }
        let ghost before = *self;
        self.data.set(r * self.cols + c, v);
        proof {
            assert forall|x: int, y: int|
                0 <= x < before.rows && 0 <= y < before.cols && !(x == r && y
                    == c) implies #[trigger] self.at(x, y) == before.at(x, y) by {
                lemma_index(x, y, self.rows as int, self.cols as int);
                let n = self.cols as int;
                if x * n + y == r * n + c {
                    assert(x == r) by (nonlinear_arith)
                        requires
                            x * n + y == r * n + c,
                            0 <= y < n,
                            0 <= c < n,
                    ;
                }
            }
        }
    }

    pub fn rows(&self) -> (r: usize)
        ensures
            r == self.rows,
    {
        self.rows
    }

    pub fn cols(&self) -> (r: usize)
        ensures
            r == self.cols,
    {
        self.cols
    }
}

/// The row of a token in an embedding table. `None` for an unknown token and
/// for a table of the wrong size.
pub fn embedding_lookup(
    table: &[u32],
    n_vocab: usize,
    hidden_dim: usize,
    vocab_id: u32,
) -> (r: Option<Vec<u32>>)
    ensures
        match r {
            Some(row) => {
                &&& (vocab_id as int) < n_vocab
                &&& table@.len() == n_vocab * hidden_dim
                &&& row@ == table@.subrange(vocab_id * hidden_dim, vocab_id * hidden_dim
                    + hidden_dim)
            },
            None => vocab_id as int >= n_vocab || table@.len() != n_vocab * hidden_dim,
        },
{
    if vocab_id as u64 >= n_vocab as u64 {
        return None;
    }
    proof {
        assert(n_vocab * hidden_dim <= u128::MAX) by (nonlinear_arith)
            requires
                n_vocab <= 0xFFFF_FFFF_FFFF_FFFF,
                hidden_dim <= 0xFFFF_FFFF_FFFF_FFFF,
        ;
    }
    if table.len() as u128 != n_vocab as u128 * hidden_dim as u128 {
        return None;
    }
    let id: usize = vocab_id as usize;
    proof {
        assert(0 <= id * hidden_dim && id * hidden_dim + hidden_dim <= n_vocab * hidden_dim)
            by (nonlinear_arith)
            requires
                0 <= id < n_vocab,
                0 <= hidden_dim,
        ;
        assert(table.len() == table@.len());
    }
    let start: usize = id * hidden_dim;
    let mut out: Vec<u32> = Vec::new();
    let mut i: usize = 0;
    while i < hidden_dim
        invariant
            i <= hidden_dim,
            start + hidden_dim <= table.len(),
            out@ == table@.subrange(start as int, start + i),
        decreases hidden_dim - i,
    {
        out.push(table[start + i]);
        i = i + 1;
        assert(table@.subrange(start as int, start + i) =~= table@.subrange(
            start as int,
            start + i - 1,
        ).push(table@[start + i - 1]));
    }
    Some(out)
}

} // verus!
