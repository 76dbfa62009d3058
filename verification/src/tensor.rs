//! Dense row-major tensors of binary32 numbers.
use crate::float::num;
use vstd::arithmetic::div_mod::lemma_fundamental_div_mod_converse;
use vstd::prelude::*;

verus! {

/// A dense tensor of rank `D`: its extents and, in row-major order, the bit patterns
/// of its elements.
#[derive(Debug)]
pub struct Tensor<const D: usize> {
    pub dims: [usize; D],
    pub bits: Vec<u32>,
}

impl<const D: usize> Clone for Tensor<D> {
    fn clone(&self) -> (r: Self)
        ensures
            r.dims@ == self.dims@,
            r.bits@ == self.bits@,
    {
        Tensor { dims: self.dims, bits: self.bits.clone() }
    }
}

/// Number of elements of a tensor with these extents.
pub open spec fn numel(d: Seq<usize>) -> nat
    decreases d.len(),
{
    if d.len() == 0 {
        1
    } else {
        numel(d.drop_last()) * d.last() as nat
    }
}

/// An extent, with an empty axis counted as one: the memory layout of an empty array is
/// worked out from its other axes.
pub open spec fn nonempty(n: int) -> int {
    if n > 0 {
        n
    } else {
        1
    }
}

/// The product of the extents, empty axes counted as one.
pub open spec fn room(d: Seq<usize>) -> int
    decreases d.len(),
{
    if d.len() == 0 {
        1
    } else {
        room(d.drop_last()) * nonempty(d.last() as int)
    }
}

/// An array of these extents can be laid out in memory.
pub open spec fn laid_out(d: Seq<usize>) -> bool {
    room(d) <= isize::MAX
}

/// A matrix of these extents can be laid out in memory.
pub open spec fn matrix_fits(rows: int, cols: int) -> bool {
    nonempty(rows) * nonempty(cols) <= isize::MAX
}

/// Row-major position of an element in a tensor of rank four.
pub open spec fn offset4(d: Seq<usize>, i: int, j: int, k: int, l: int) -> int {
    ((i * d[1] + j) * d[2] + k) * d[3] + l
}

/// The element at an index of a rank-two tensor.
#[verifier::opaque]
pub open spec fn elem2(d: Seq<usize>, bits: Seq<u32>, i: int, j: int) -> u32 {
    num(bits[i * d[1] + j])
}

/// The element at an index of a rank-three tensor.
#[verifier::opaque]
pub open spec fn elem3(d: Seq<usize>, bits: Seq<u32>, i: int, j: int, k: int) -> u32 {
    num(bits[(i * d[1] + j) * d[2] + k])
}

/// The element at an index of a rank-four tensor.
#[verifier::opaque]
pub open spec fn elem4(d: Seq<usize>, bits: Seq<u32>, i: int, j: int, k: int, l: int) -> u32 {
    num(bits[offset4(d, i, j, k, l)])
}

impl<const D: usize> Tensor<D> {
    /// As many elements as the extents ask for.
    pub open spec fn wf(&self) -> bool {
        self.bits@.len() == numel(self.dims@)
    }

    /// The elements in row-major order.
    pub open spec fn elems(&self) -> Seq<u32> {
        self.bits@.map_values(|b: u32| num(b))
    }
}

impl Tensor<1> {
    /// Well-formed, with this extent.
    pub open spec fn shaped(&self, a: int) -> bool {
        self.wf() && self.dims@[0] == a
    }

    /// The element at an index.
    pub open spec fn at(&self, i: int) -> u32 {
        num(self.bits@[i])
    }
}

impl Tensor<2> {
    /// Well-formed, with these extents.
    pub open spec fn shaped(&self, a: int, b: int) -> bool {
        self.wf() && self.dims@[0] == a && self.dims@[1] == b
    }

    /// The element at an index.
    pub open spec fn at(&self, i: int, j: int) -> u32 {
        elem2(self.dims@, self.bits@, i, j)
    }

    /// Row `i`.
    pub open spec fn row(&self, i: int) -> Seq<u32> {
        Seq::new(self.dims@[1] as nat, |j: int| self.at(i, j))
    }

    /// Column `j`.
    pub open spec fn col(&self, j: int) -> Seq<u32> {
        Seq::new(self.dims@[0] as nat, |i: int| self.at(i, j))
    }
}

impl Tensor<3> {
    /// Well-formed, with these extents.
    pub open spec fn shaped(&self, a: int, b: int, c: int) -> bool {
        self.wf() && self.dims@[0] == a && self.dims@[1] == b && self.dims@[2] == c
    }

    /// Whether an index lies in the tensor.
    pub open spec fn has(&self, i: int, j: int, k: int) -> bool {
        0 <= i < self.dims@[0] && 0 <= j < self.dims@[1] && 0 <= k < self.dims@[2]
    }

    /// The element at an index.
    pub open spec fn at(&self, i: int, j: int, k: int) -> u32 {
        elem3(self.dims@, self.bits@, i, j, k)
    }

    /// The elements that share the first two indices.
    pub open spec fn row(&self, i: int, j: int) -> Seq<u32> {
        Seq::new(self.dims@[2] as nat, |k: int| self.at(i, j, k))
    }
}

impl Tensor<4> {
    /// Well-formed, with these extents.
    pub open spec fn shaped(&self, a: int, b: int, c: int, d: int) -> bool {
        self.wf() && self.dims@[0] == a && self.dims@[1] == b && self.dims@[2] == c
            && self.dims@[3] == d
    }

    /// Whether an index lies in the tensor.
    pub open spec fn has(&self, i: int, j: int, k: int, l: int) -> bool {
        0 <= i < self.dims@[0] && 0 <= j < self.dims@[1] && 0 <= k < self.dims@[2] && 0 <= l
            < self.dims@[3]
    }

    /// The element at an index.
    pub open spec fn at(&self, i: int, j: int, k: int, l: int) -> u32 {
        elem4(self.dims@, self.bits@, i, j, k, l)
    }

    /// The elements that share the first three indices.
    pub open spec fn row(&self, i: int, j: int, k: int) -> Seq<u32> {
        Seq::new(self.dims@[3] as nat, |l: int| self.at(i, j, k, l))
    }

    /// The elements that share all indices but the third.
    pub open spec fn col(&self, i: int, j: int, l: int) -> Seq<u32> {
        Seq::new(self.dims@[2] as nat, |k: int| self.at(i, j, k, l))
    }
}

pub(crate) proof fn lemma_numel1(d: Seq<usize>)
    requires
        d.len() == 1,
    ensures
        numel(d) == d[0],
{
    reveal_with_fuel(numel, 2);
}

pub(crate) proof fn lemma_numel2(d: Seq<usize>)
    requires
        d.len() == 2,
    ensures
        numel(d) == d[0] * d[1],
{
    lemma_numel1(d.drop_last());
}

pub(crate) proof fn lemma_numel3(d: Seq<usize>)
    requires
        d.len() == 3,
    ensures
        numel(d) == d[0] * d[1] * d[2],
{
    lemma_numel2(d.drop_last());
}

pub(crate) proof fn lemma_numel4(d: Seq<usize>)
    requires
        d.len() == 4,
    ensures
        numel(d) == d[0] * d[1] * d[2] * d[3],
{
    lemma_numel3(d.drop_last());
}

pub(crate) proof fn lemma_room3(d: Seq<usize>)
    requires
        d.len() == 3,
    ensures
        room(d) == nonempty(d[0] as int) * nonempty(d[1] as int) * nonempty(d[2] as int),
{
    reveal_with_fuel(room, 4);
    assert(d.drop_last()[1] == d[1]);
    assert(d.drop_last().drop_last()[0] == d[0]);
    let a = nonempty(d[0] as int);
    assert(1 * a == a);
}

pub(crate) proof fn lemma_room4(d: Seq<usize>)
    requires
        d.len() == 4,
    ensures
        room(d) == nonempty(d[0] as int) * nonempty(d[1] as int) * nonempty(d[2] as int) * nonempty(d[3] as int),
{
    lemma_room3(d.drop_last());
}

/// What can be laid out with a first axis counted as nonempty has a number of elements.
pub(crate) proof fn lemma_plain3(a: int, b: int, c: int)
    requires
        0 <= a,
        0 <= b,
        0 <= c,
        nonempty(a) * b * c <= isize::MAX,
    ensures
        0 <= a * b * c <= usize::MAX,
        0 <= a * b,
{
    assert(0 <= a * b && 0 <= a * b * c <= nonempty(a) * b * c) by (nonlinear_arith)
        requires
            0 <= a <= nonempty(a),
            0 <= b,
            0 <= c,
    ;
}

/// What can be laid out with a first axis counted as nonempty has a number of elements.
pub(crate) proof fn lemma_plain4(a: int, b: int, c: int, d: int)
    requires
        0 <= a,
        0 <= b,
        0 <= c,
        0 <= d,
        nonempty(a) * b * c * d <= isize::MAX,
    ensures
        0 <= a * b * c * d <= usize::MAX,
{
    assert(0 <= a * b * c * d <= nonempty(a) * b * c * d) by (nonlinear_arith)
        requires
            0 <= a <= nonempty(a),
            0 <= b,
            0 <= c,
            0 <= d,
    ;
}

/// One step of row-major indexing: a position `q` among `n` blocks of `m` elements and
/// a position `r` in the block.
pub(crate) proof fn lemma_block(q: int, r: int, n: int, m: int)
    requires
        0 <= q < n,
        0 <= r < m,
    ensures
        0 <= q * m + r < n * m,
        q <= q * m + r,
        (q * m + r) / m == q,
        (q * m + r) % m == r,
{
    lemma_fundamental_div_mod_converse(q * m + r, m, q, r);
    assert(0 <= q * m + r < n * m && q <= q * m + r) by (nonlinear_arith)
        requires
            0 <= q < n,
            0 <= r < m,
    ;
}

/// Splitting a position into block and rest gives a block among the `n` and a rest
/// below `m`.
proof fn lemma_split(x: int, n: int, m: int)
    requires
        0 <= x < n * m,
        0 <= n,
        0 <= m,
    ensures
        m > 0,
        0 <= x / m < n,
        0 <= x % m < m,
{
    assert(m > 0) by (nonlinear_arith)
        requires
            0 <= x < n * m,
            0 <= m,
    ;
    assert(0 <= x / m < n) by (nonlinear_arith)
        requires
            0 <= x < n * m,
            m > 0,
    ;
}

/// Where an index of a rank-four tensor lands, and how to get the index back.
pub(crate) proof fn lemma_offset4(d: Seq<usize>, i: int, j: int, k: int, l: int)
    requires
        d.len() == 4,
        0 <= i < d[0],
        0 <= j < d[1],
        0 <= k < d[2],
        0 <= l < d[3],
    ensures
        0 <= offset4(d, i, j, k, l) < numel(d),
        0 <= i * d[1] + j <= (i * d[1] + j) * d[2] + k <= offset4(d, i, j, k, l),
        0 <= i * d[1] <= i * d[1] + j,
        0 <= (i * d[1] + j) * d[2] <= (i * d[1] + j) * d[2] + k,
        0 <= ((i * d[1] + j) * d[2] + k) * d[3] <= offset4(d, i, j, k, l),
        offset4(d, i, j, k, l) % (d[3] as int) == l,
        offset4(d, i, j, k, l) / (d[3] as int) % (d[2] as int) == k,
        offset4(d, i, j, k, l) / (d[3] as int) / (d[2] as int) % (d[1] as int) == j,
        offset4(d, i, j, k, l) / (d[3] as int) / (d[2] as int) / (d[1] as int) == i,
{
    lemma_numel4(d);
    lemma_block(i, j, d[0] as int, d[1] as int);
    lemma_block(i * d[1] + j, k, d[0] * d[1], d[2] as int);
    lemma_block((i * d[1] + j) * d[2] + k, l, d[0] * d[1] * d[2], d[3] as int);
    assert(0 <= i * d[1] && 0 <= (i * d[1] + j) * d[2] && 0 <= ((i * d[1] + j) * d[2] + k) * d[3])
        by (nonlinear_arith)
        requires
            0 <= i,
            0 <= i * d[1] + j,
            0 <= (i * d[1] + j) * d[2] + k,
            0 <= d[1],
            0 <= d[2],
            0 <= d[3],
    ;
}

/// Fills a rank-four tensor from a function of the index.
pub(crate) fn build4<F: Fn(usize, usize, usize, usize) -> u32>(d: [usize; 4], f: F) -> (r: Tensor<4>)
    requires
        numel(d@) <= usize::MAX,
        forall|i: usize, j: usize, k: usize, l: usize|
            i < d@[0] && j < d@[1] && k < d@[2] && l < d@[3] ==> #[trigger] f.requires((i, j, k, l)),
    ensures
        r.dims@ == d@,
        r.wf(),
        forall|i: usize, j: usize, k: usize, l: usize|
            i < d@[0] && j < d@[1] && k < d@[2] && l < d@[3] ==> f.ensures(
                (i, j, k, l),
                #[trigger] r.bits@[offset4(d@, i as int, j as int, k as int, l as int)],
            ),
{
    let mut bits: Vec<u32> = Vec::new();
    proof {
        lemma_numel4(d@);
    }
    if d[0] == 0 || d[1] == 0 || d[2] == 0 || d[3] == 0 {
        assert(d@[0] * d@[1] * d@[2] * d@[3] == 0) by (nonlinear_arith)
            requires
                d@[0] == 0 || d@[1] == 0 || d@[2] == 0 || d@[3] == 0,
        ;
        return Tensor { dims: d, bits };
    }
    assert(d@[0] * d@[1] <= d@[0] * d@[1] * d@[2] <= d@[0] * d@[1] * d@[2] * d@[3]) by (nonlinear_arith)
        requires
            d@[0] >= 1,
            d@[1] >= 1,
            d@[2] >= 1,
            d@[3] >= 1,
    ;
    let total: usize = d[0] * d[1] * d[2] * d[3];
    let mut n: usize = 0;
    while n < total
        invariant
            total == d@[0] * d@[1] * d@[2] * d@[3],
            n <= total,
            bits@.len() == n,
            d@[0] >= 1,
            d@[1] >= 1,
            d@[2] >= 1,
            d@[3] >= 1,
            forall|i: usize, j: usize, k: usize, l: usize|
                i < d@[0] && j < d@[1] && k < d@[2] && l < d@[3] ==> #[trigger] f.requires(
                    (i, j, k, l),
                ),
            forall|m: int|
                0 <= m < n ==> f.ensures(
                    (
                        (m / (d@[3] as int) / (d@[2] as int) / (d@[1] as int)) as usize,
                        (m / (d@[3] as int) / (d@[2] as int) % (d@[1] as int)) as usize,
                        (m / (d@[3] as int) % (d@[2] as int)) as usize,
                        (m % (d@[3] as int)) as usize,
                    ),
                    #[trigger] bits@[m],
                ),
        decreases total - n,
    {
        proof {
            lemma_split(n as int, d@[0] * d@[1] * d@[2], d@[3] as int);
            lemma_split(n as int / (d@[3] as int), d@[0] * d@[1], d@[2] as int);
            lemma_split(n as int / (d@[3] as int) / (d@[2] as int), d@[0] as int, d@[1] as int);
        }
        let a = n / d[3];
        let b = a / d[2];
        let v = f(b / d[1], b % d[1], a % d[2], n % d[3]);
        bits.push(v);
        n = n + 1;
    }
    let r = Tensor { dims: d, bits };
    assert forall|i: usize, j: usize, k: usize, l: usize|
        i < d@[0] && j < d@[1] && k < d@[2] && l < d@[3] implies f.ensures(
        (i, j, k, l),
        #[trigger] r.bits@[offset4(d@, i as int, j as int, k as int, l as int)],
    ) by {
        lemma_offset4(d@, i as int, j as int, k as int, l as int);
    }
    r
}

/// Where an index of a rank-three tensor lands.
pub(crate) proof fn lemma_offset3(d: Seq<usize>, i: int, j: int, k: int)
    requires
        d.len() == 3,
        0 <= i < d[0],
        0 <= j < d[1],
        0 <= k < d[2],
    ensures
        0 <= (i * d[1] + j) * d[2] + k < numel(d),
        0 <= i * d[1] <= i * d[1] + j <= (i * d[1] + j) * d[2] + k,
        0 <= (i * d[1] + j) * d[2] <= (i * d[1] + j) * d[2] + k,
{
    lemma_numel3(d);
    lemma_block(i, j, d[0] as int, d[1] as int);
    lemma_block(i * d[1] + j, k, d[0] * d[1], d[2] as int);
    assert(0 <= i * d[1] && 0 <= (i * d[1] + j) * d[2]) by (nonlinear_arith)
        requires
            0 <= i,
            0 <= i * d[1] + j,
            0 <= d[1],
            0 <= d[2],
    ;
}

impl Tensor<1> {
    /// Reads an element.
    pub fn get(&self, i: usize) -> (v: u32)
        requires
            self.wf(),
            i < self.dims@[0],
        ensures
            num(v) == self.at(i as int),
    {
        proof {
            lemma_numel1(self.dims@);
        }
        self.bits[i]
    }
}

impl Tensor<2> {
    /// Reads an element.
    pub fn get(&self, i: usize, j: usize) -> (v: u32)
        requires
            self.wf(),
            i < self.dims@[0],
            j < self.dims@[1],
        ensures
            num(v) == self.at(i as int, j as int),
    {
        proof {
            reveal(elem2);
            assert(self.bits.len() <= usize::MAX);
            lemma_numel2(self.dims@);
            lemma_block(i as int, j as int, self.dims@[0] as int, self.dims@[1] as int);
            assert(0 <= i * self.dims@[1]) by (nonlinear_arith)
                requires
                    0 <= i,
                    0 <= self.dims@[1],
            ;
        }
        self.bits[i * self.dims[1] + j]
    }
}

impl Tensor<3> {
    /// Reads an element.
    pub fn get(&self, i: usize, j: usize, k: usize) -> (v: u32)
        requires
            self.wf(),
            self.has(i as int, j as int, k as int),
        ensures
            num(v) == self.at(i as int, j as int, k as int),
    {
        proof {
            reveal(elem3);
            assert(self.bits.len() <= usize::MAX);
            lemma_offset3(self.dims@, i as int, j as int, k as int);
        }
        self.bits[(i * self.dims[1] + j) * self.dims[2] + k]
    }
}

impl Tensor<4> {
    /// Reads an element.
    pub fn get(&self, i: usize, j: usize, k: usize, l: usize) -> (v: u32)
        requires
            self.wf(),
            self.has(i as int, j as int, k as int, l as int),
        ensures
            num(v) == self.at(i as int, j as int, k as int, l as int),
    {
        proof {
            reveal(elem4);
            assert(self.bits.len() <= usize::MAX);
            lemma_offset4(self.dims@, i as int, j as int, k as int, l as int);
        }
        self.bits[((i * self.dims[1] + j) * self.dims[2] + k) * self.dims[3] + l]
    }
}

/// Drops a first axis of extent one.
pub(crate) fn drop_first_axis(t: Tensor<4>) -> (r: Tensor<3>)
    requires
        t.wf(),
        t.dims@[0] == 1,
    ensures
        r.shaped(t.dims@[1] as int, t.dims@[2] as int, t.dims@[3] as int),
        forall|i: int, j: int, k: int| #[trigger] r.at(i, j, k) == t.at(0, i, j, k),
{
    let dims = [t.dims[1], t.dims[2], t.dims[3]];
    proof {
        reveal(elem3);
        reveal(elem4);
        lemma_numel4(t.dims@);
        lemma_numel3(dims@);
    }
    Tensor { dims, bits: t.bits }
}

/// Tensors are row-major: as many elements as the product of the extents, the last index
/// running fastest.
pub proof fn law_layout(w: Tensor<2>, x: Tensor<3>, y: Tensor<4>, i: int, j: int, k: int, l: int)
    ensures
        w.wf() <==> w.bits@.len() == w.dims@[0] * w.dims@[1],
        x.wf() <==> x.bits@.len() == x.dims@[0] * x.dims@[1] * x.dims@[2],
        y.wf() <==> y.bits@.len() == y.dims@[0] * y.dims@[1] * y.dims@[2] * y.dims@[3],
        w.at(i, j) == num(w.bits@[i * w.dims@[1] + j]),
        x.at(i, j, k) == num(x.bits@[(i * x.dims@[1] + j) * x.dims@[2] + k]),
        y.at(i, j, k, l) == num(
            y.bits@[((i * y.dims@[1] + j) * y.dims@[2] + k) * y.dims@[3] + l],
        ),
{
    reveal(elem2);
    reveal(elem3);
    reveal(elem4);
    lemma_numel2(w.dims@);
    lemma_numel3(x.dims@);
    lemma_numel4(y.dims@);
}

} // verus!
