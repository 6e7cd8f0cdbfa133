use vstd::prelude::*;
use crate::error::KernelError;
use crate::layout::{lemma_offset2_bound, lemma_offset2_join, lemma_offset2_split, offset2, split2};

verus! {

/// Extents of a dense matrix product: an `m` by `k` left factor, a `k` by `n`
/// right factor and an `m` by `n` result, all row-major.
#[derive(Clone, Copy, Debug, PartialEq, Eq)]
pub struct MatMulShape {
    pub m: usize,
    pub k: usize,
    pub n: usize,
}

impl MatMulShape {
    /// Entries of the left factor.
    pub open spec fn left_volume(&self) -> int {
        self.m * self.k
    }

    /// Entries of the right factor.
    pub open spec fn right_volume(&self) -> int {
        self.k * self.n
    }

    /// Entries of the result.
    pub open spec fn output_volume(&self) -> int {
        self.m * self.n
    }

    /// Both factors have exactly the lengths that the extents declare.
    pub open spec fn fits(&self, left_len: int, right_len: int) -> bool {
        &&& left_len == self.left_volume()
        &&& right_len == self.right_volume()
    }

    /// A shape that `new` accepts: all three buffers are addressable.
    pub open spec fn wf(&self) -> bool {
        &&& self.left_volume() <= usize::MAX
        &&& self.right_volume() <= usize::MAX
        &&& self.output_volume() <= usize::MAX
    }

    /// The verdict on a shape and the lengths of the factors offered with it.
    /// A wrong length is reported before a result too long to address.
    pub open spec fn verdict(self, left_len: int, right_len: int) -> Result<
        MatMulShape,
        KernelError,
    > {
        if !self.fits(left_len, right_len) {
            Err(KernelError::ShapeMismatch)
        } else if self.output_volume() > usize::MAX {
            Err(KernelError::IndexOutOfBounds)
        } else {
            Ok(self)
        }
    }

    /// Offset of `left[i][t]`.
    pub open spec fn left_index(&self, i: int, t: int) -> int {
        offset2(self.k as int, i, t)
    }

    /// Offset of `right[t][j]`.
    pub open spec fn right_index(&self, t: int, j: int) -> int {
        offset2(self.n as int, t, j)
    }

    /// Offset of `output[i][j]`.
    pub open spec fn output_index(&self, i: int, j: int) -> int {
        offset2(self.n as int, i, j)
    }

    /// `partial` lists the running values of `output[i][j]`: it starts at
    /// `init`, and step `t` hands `f` the running value, `left[i][t]` and
    /// `right[t][j]`, for `t` from `0` to `k - 1` in turn.
    pub open spec fn is_partial_sums<T, F: Fn(T, T, T) -> T>(
        &self,
        f: F,
        init: T,
        left: Seq<T>,
        right: Seq<T>,
        i: int,
        j: int,
        partial: Seq<T>,
    ) -> bool {
        &&& partial.len() == self.k + 1
        &&& partial[0] == init
        &&& forall|t: int|
            0 <= t < self.k ==> f.ensures(
                (
                    #[trigger] partial[t],
                    left[self.left_index(i, t)],
                    right[self.right_index(t, j)],
                ),
                partial[t + 1],
            )
    }

    /// `acc` is a value that summing the `k` products of `output[i][j]` into
    /// `init` with `f`, in ascending order, can give.
    pub open spec fn sums_to<T, F: Fn(T, T, T) -> T>(
        &self,
        f: F,
        init: T,
        left: Seq<T>,
        right: Seq<T>,
        i: int,
        j: int,
        acc: T,
    ) -> bool {
        exists|partial: Seq<T>|
            #[trigger] self.is_partial_sums(f, init, left, right, i, j, partial)
                && partial[self.k as int] == acc
    }

    /// Validates the extents against the lengths of the two factors.
    pub fn new(left_len: usize, right_len: usize, m: usize, k: usize, n: usize) -> (r: Result<
        MatMulShape,
        KernelError,
    >)
        ensures
            r == (MatMulShape { m, k, n }).verdict(left_len as int, right_len as int),
            r matches Ok(s) ==> s.wf(),
    {
        let left_ok = match m.checked_mul(k) {
            Some(v) => v == left_len,
            None => false,
        };
        let right_ok = match k.checked_mul(n) {
            Some(v) => v == right_len,
            None => false,
        };
        if !left_ok || !right_ok {
            return Err(KernelError::ShapeMismatch);
        }
        match m.checked_mul(n) {
            Some(_) => Ok(MatMulShape { m, k, n }),
            None => Err(KernelError::IndexOutOfBounds),
        }
    }

    /// Length of the result buffer.
    pub fn output_len(&self) -> (r: usize)
        requires
            self.wf(),
        ensures
            r == self.m * self.n,
    {
        self.m * self.n
    }

    /// The result entry `[i][j]` stored at offset `idx`.
    pub fn cell(&self, idx: usize) -> (r: (usize, usize))
        requires
            self.wf(),
            idx < self.output_volume(),
        ensures
            r.0 < self.m,
            r.1 < self.n,
            self.output_index(r.0 as int, r.1 as int) == idx,
    {
        proof {
            lemma_offset2_join(self.m as int, self.n as int, idx as int);
        }
        split2(self.n, idx)
    }

    /// The products summed into `output[i][j]`, in summation order: the
    /// `t`-th pairs the offset of `left[i][t]` with the offset of `right[t][j]`.
    #[verifier::loop_isolation(false)]
    pub fn terms(&self, i: usize, j: usize) -> (r: Vec<(usize, usize)>)
        requires
            self.wf(),
            i < self.m,
            j < self.n,
        ensures
            r@.len() == self.k,
            forall|t: int|
                0 <= t < r@.len() ==> {
                    &&& (#[trigger] r@[t]).0 == self.left_index(i as int, t)
                    &&& r@[t].1 == self.right_index(t, j as int)
                    &&& r@[t].0 < self.left_volume()
                    &&& r@[t].1 < self.right_volume()
                },
    {
        let mut r: Vec<(usize, usize)> = Vec::new();
        let mut t: usize = 0;
        while t < self.k
            invariant
                t <= self.k,
                r@.len() == t,
                forall|u: int|
                    0 <= u < r@.len() ==> {
                        &&& (#[trigger] r@[u]).0 == self.left_index(i as int, u)
                        &&& r@[u].1 == self.right_index(u, j as int)
                        &&& r@[u].0 < self.left_volume()
                        &&& r@[u].1 < self.right_volume()
                    },
            decreases self.k - t,
        {
            proof {
                lemma_offset2_bound(self.m as int, self.k as int, i as int, t as int);
                lemma_offset2_bound(self.k as int, self.n as int, t as int, j as int);
            }
            r.push((i * self.k + t, t * self.n + j));
            t += 1;
        }
        r
    }

    /// Two lists of running values for the same entry agree at every step,
    /// when the result of `f` is determined by its arguments.
    proof fn lemma_partial_sums_agree<T, F: Fn(T, T, T) -> T>(
        &self,
        f: F,
        init: T,
        left: Seq<T>,
        right: Seq<T>,
        i: int,
        j: int,
        p: Seq<T>,
        q: Seq<T>,
        t: int,
    )
        requires
            forall|args: (T, T, T), r1: T, r2: T|
                #[trigger] f.ensures(args, r1) && #[trigger] f.ensures(args, r2) ==> r1 == r2,
            self.is_partial_sums(f, init, left, right, i, j, p),
            self.is_partial_sums(f, init, left, right, i, j, q),
            0 <= t <= self.k,
        ensures
            p[t] == q[t],
        decreases t,
    {
        if t > 0 {
            self.lemma_partial_sums_agree(f, init, left, right, i, j, p, q, t - 1);
            let x = left[self.left_index(i, t - 1)];
            let y = right[self.right_index(t - 1, j)];
            assert(f.ensures((p[t - 1], x, y), p[t - 1 + 1]));
            assert(f.ensures((q[t - 1], x, y), q[t - 1 + 1]));
        }
    }

    /// An entry of the product has one value: when the result of `f` is
    /// determined by its arguments, any two values that the sum of
    /// `output[i][j]` can give are the same.
    pub proof fn lemma_sums_to_unique<T, F: Fn(T, T, T) -> T>(
        &self,
        f: F,
        init: T,
        left: Seq<T>,
        right: Seq<T>,
        i: int,
        j: int,
        acc1: T,
        acc2: T,
    )
        requires
            forall|args: (T, T, T), r1: T, r2: T|
                #[trigger] f.ensures(args, r1) && #[trigger] f.ensures(args, r2) ==> r1 == r2,
            self.sums_to(f, init, left, right, i, j, acc1),
            self.sums_to(f, init, left, right, i, j, acc2),
        ensures
            acc1 == acc2,
    {
        let p = choose|p: Seq<T>|
            #[trigger] self.is_partial_sums(f, init, left, right, i, j, p) && p[self.k as int]
                == acc1;
        let q = choose|q: Seq<T>|
            #[trigger] self.is_partial_sums(f, init, left, right, i, j, q) && q[self.k as int]
                == acc2;
        self.lemma_partial_sums_agree(f, init, left, right, i, j, p, q, self.k as int);
    }

    /// Running values of row `i` under an identity left factor: `zero` up to
    /// the diagonal, the entry `right[i][j]` after it.
    proof fn lemma_identity_partial<T, F: Fn(T, T, T) -> T>(
        &self,
        f: F,
        zero: T,
        one: T,
        left: Seq<T>,
        right: Seq<T>,
        i: int,
        j: int,
        p: Seq<T>,
        t: int,
    )
        requires
            0 <= i < self.k,
            forall|u: int|
                0 <= u < self.k ==> left[#[trigger] self.left_index(i, u)] == (if u == i {
                    one
                } else {
                    zero
                }),
            forall|u: int, r: T|
                0 <= u < self.k && #[trigger] f.ensures(
                    (zero, zero, right[self.right_index(u, j)]),
                    r,
                ) ==> r == zero,
            forall|u: int, r: T|
                0 <= u < self.k && #[trigger] f.ensures(
                    (right[self.right_index(i, j)], zero, right[self.right_index(u, j)]),
                    r,
                ) ==> r == right[self.right_index(i, j)],
            forall|r: T| #[trigger]
                f.ensures((zero, one, right[self.right_index(i, j)]), r) ==> r == right[self.right_index(
                    i,
                    j,
                )],
            self.is_partial_sums(f, zero, left, right, i, j, p),
            0 <= t <= self.k,
        ensures
            t <= i ==> p[t] == zero,
            t > i ==> p[t] == right[self.right_index(i, j)],
        decreases t,
    {
        if t > 0 {
            self.lemma_identity_partial(f, zero, one, left, right, i, j, p, t - 1);
            let x = left[self.left_index(i, t - 1)];
            let y = right[self.right_index(t - 1, j)];
            assert(f.ensures((p[t - 1], x, y), p[t - 1 + 1]));
        }
    }

    /// Multiplying by the identity changes nothing. Let row `i` of the left
    /// factor hold `one` on the diagonal and `zero` elsewhere. Let `f` return
    /// its running value, be it `zero` or `right[i][j]`, when the left entry
    /// is `zero` and the right entry is any of column `j`, and let it return
    /// `right[i][j]` for the running value `zero` and the entries `one` and
    /// `right[i][j]`. Then `output[i][j]` is `right[i][j]`.
    pub proof fn lemma_identity_left<T, F: Fn(T, T, T) -> T>(
        &self,
        f: F,
        zero: T,
        one: T,
        left: Seq<T>,
        right: Seq<T>,
        i: int,
        j: int,
        acc: T,
    )
        requires
            0 <= i < self.k,
            forall|u: int|
                0 <= u < self.k ==> left[#[trigger] self.left_index(i, u)] == (if u == i {
                    one
                } else {
                    zero
                }),
            forall|u: int, r: T|
                0 <= u < self.k && #[trigger] f.ensures(
                    (zero, zero, right[self.right_index(u, j)]),
                    r,
                ) ==> r == zero,
            forall|u: int, r: T|
                0 <= u < self.k && #[trigger] f.ensures(
                    (right[self.right_index(i, j)], zero, right[self.right_index(u, j)]),
                    r,
                ) ==> r == right[self.right_index(i, j)],
            forall|r: T| #[trigger]
                f.ensures((zero, one, right[self.right_index(i, j)]), r) ==> r == right[self.right_index(
                    i,
                    j,
                )],
            self.sums_to(f, zero, left, right, i, j, acc),
        ensures
            acc == right[self.right_index(i, j)],
    {
        let p = choose|p: Seq<T>|
            #[trigger] self.is_partial_sums(f, zero, left, right, i, j, p) && p[self.k as int]
                == acc;
        self.lemma_identity_partial(f, zero, one, left, right, i, j, p, self.k as int);
    }

    /// The sum of the first `count` products of `output[i][j]`, each entry
    /// read as the integer that `val` gives it.
    pub open spec fn dot<T>(
        &self,
        val: spec_fn(T) -> int,
        left: Seq<T>,
        right: Seq<T>,
        i: int,
        j: int,
        count: int,
    ) -> int
        decreases count,
    {
        if count <= 0 {
            0
        } else {
            self.dot(val, left, right, i, j, count - 1) + val(left[self.left_index(i, count - 1)])
                * val(right[self.right_index(count - 1, j)])
        }
    }

    /// Running values under an exact step: after `t` steps the running value
    /// stands for the start plus the first `t` products.
    proof fn lemma_exact_partial<T, F: Fn(T, T, T) -> T>(
        &self,
        f: F,
        val: spec_fn(T) -> int,
        init: T,
        left: Seq<T>,
        right: Seq<T>,
        i: int,
        j: int,
        p: Seq<T>,
        t: int,
    )
        requires
            forall|a: T, x: T, y: T, r: T| #[trigger]
                f.ensures((a, x, y), r) ==> val(r) == val(a) + val(x) * val(y),
            self.is_partial_sums(f, init, left, right, i, j, p),
            0 <= t <= self.k,
        ensures
            val(p[t]) == val(init) + self.dot(val, left, right, i, j, t),
        decreases t,
    {
        if t > 0 {
            self.lemma_exact_partial(f, val, init, left, right, i, j, p, t - 1);
            let x = left[self.left_index(i, t - 1)];
            let y = right[self.right_index(t - 1, j)];
            assert(f.ensures((p[t - 1], x, y), p[t - 1 + 1]));
        }
    }

    /// With exact scalar arithmetic the product is the textbook one. Let
    /// `val` read each scalar as an integer, and let every step of `f` be
    /// exact under it: the result stands for the running value plus the
    /// product of the two entries. Then `output[i][j]` stands for the start
    /// plus the sum over `t` of `left[i][t] * right[t][j]`.
    pub proof fn lemma_exact_sum<T, F: Fn(T, T, T) -> T>(
        &self,
        f: F,
        val: spec_fn(T) -> int,
        init: T,
        left: Seq<T>,
        right: Seq<T>,
        i: int,
        j: int,
        acc: T,
    )
        requires
            forall|a: T, x: T, y: T, r: T| #[trigger]
                f.ensures((a, x, y), r) ==> val(r) == val(a) + val(x) * val(y),
            self.sums_to(f, init, left, right, i, j, acc),
        ensures
            val(acc) == val(init) + self.dot(val, left, right, i, j, self.k as int),
    {
        let p = choose|p: Seq<T>|
            #[trigger] self.is_partial_sums(f, init, left, right, i, j, p) && p[self.k as int]
                == acc;
        self.lemma_exact_partial(f, val, init, left, right, i, j, p, self.k as int);
    }
}

/// The product of the `m` by `k` matrix `a` and the `k` by `n` matrix `b`, both
/// flat and row-major. Entry `[i][j]` of the result starts from `zero` and
/// takes `mul_add(acc, a[i][t], b[t][j])` for `t` from `0` to `k - 1` in turn.
/// Nothing is computed when a length is wrong.
pub fn fast_matmul_flat<T: Copy, F: Fn(T, T, T) -> T>(
    a: Vec<T>,
    b: Vec<T>,
    m: usize,
    k: usize,
    n: usize,
    zero: T,
    mul_add: F,
) -> (r: Result<Vec<T>, KernelError>)
    requires
        forall|acc: T, x: T, y: T| mul_add.requires((acc, x, y)),
    ensures
        (MatMulShape { m, k, n }).verdict(a@.len() as int, b@.len() as int) matches Err(e)
            ==> r == Err::<Vec<T>, KernelError>(e),
        (MatMulShape { m, k, n }).verdict(a@.len() as int, b@.len() as int) is Ok ==> r is Ok,
        r matches Ok(c) ==> {
            &&& c@.len() == m * n
            &&& forall|i: int, j: int|
                0 <= i < m && 0 <= j < n ==> (MatMulShape { m, k, n }).sums_to(
                    mul_add,
                    zero,
                    a@,
                    b@,
                    i,
                    j,
                    c@[#[trigger] (MatMulShape { m, k, n }).output_index(i, j)],
                )
        },
{
    let s = match MatMulShape::new(a.len(), b.len(), m, k, n) {
        Ok(s) => s,
        Err(e) => {
            return Err(e);
        },
    };
    let total = s.output_len();
    let mut c: Vec<T> = Vec::new();
    let mut idx: usize = 0;
    while idx < total
        invariant
            s.wf(),
            s == (MatMulShape { m, k, n }),
            a@.len() == s.left_volume(),
            b@.len() == s.right_volume(),
            total == s.output_volume(),
            idx <= total,
            c@.len() == idx,
            forall|acc: T, x: T, y: T| mul_add.requires((acc, x, y)),
            forall|x: int|
                0 <= x < idx ==> s.sums_to(
                    mul_add,
                    zero,
                    a@,
                    b@,
                    x / n as int,
                    x % n as int,
                    #[trigger] c@[x],
                ),
        decreases total - idx,
    {
        let (i, j) = s.cell(idx);
        let terms = s.terms(i, j);
        let mut acc = zero;
        let ghost mut partial: Seq<T> = seq![zero];
        let mut t: usize = 0;
        while t < terms.len()
            invariant
                t <= terms@.len(),
                terms@.len() == k,
                a@.len() == s.left_volume(),
                b@.len() == s.right_volume(),
                forall|u: int|
                    0 <= u < terms@.len() ==> {
                        &&& (#[trigger] terms@[u]).0 == s.left_index(i as int, u)
                        &&& terms@[u].1 == s.right_index(u, j as int)
                        &&& terms@[u].0 < s.left_volume()
                        &&& terms@[u].1 < s.right_volume()
                    },
                forall|acc: T, x: T, y: T| mul_add.requires((acc, x, y)),
                partial.len() == t + 1,
                partial[0] == zero,
                partial[t as int] == acc,
                forall|u: int|
                    0 <= u < t ==> mul_add.ensures(
                        (
                            #[trigger] partial[u],
                            a@[s.left_index(i as int, u)],
                            b@[s.right_index(u, j as int)],
                        ),
                        partial[u + 1],
                    ),
            decreases terms@.len() - t,
        {
            let p = terms[t];
            acc = mul_add(acc, a[p.0], b[p.1]);
            t += 1;
            proof {
                partial = partial.push(acc);
            }
        }
        assert(s.is_partial_sums(mul_add, zero, a@, b@, i as int, j as int, partial));
        proof {
            lemma_offset2_split(n as int, i as int, j as int);
        }
        c.push(acc);
        idx += 1;
    }
    assert forall|i: int, j: int| 0 <= i < m && 0 <= j < n implies s.sums_to(
        mul_add,
        zero,
        a@,
        b@,
        i,
        j,
        c@[#[trigger] s.output_index(i, j)],
    ) by {
        lemma_offset2_bound(m as int, n as int, i, j);
        lemma_offset2_split(n as int, i, j);
    }
    Ok(c)
}

} // verus!
