use vstd::prelude::*;
use crate::error::KernelError;
use crate::layout::{
    cell4, checked_volume4, lemma_cell4_of_offset4, lemma_offset2_split, lemma_offset4_bound,
    lemma_offset4_of_cell4, offset4, split4, volume4,
};

verus! {

/// Extents of a valid, stride-one 2-D convolution: an input of
/// `batch * in_c * h * w` entries, `out_c` filters of `in_c * k * k` weights
/// each, and one bias per filter.
#[derive(Clone, Copy, Debug, PartialEq, Eq)]
pub struct ConvShape {
    pub batch: usize,
    pub in_c: usize,
    pub out_c: usize,
    pub h: usize,
    pub w: usize,
    pub k: usize,
}

impl ConvShape {
    /// Rows of one output plane.
    pub open spec fn h_out(&self) -> int {
        self.h - self.k + 1
    }

    /// Columns of one output plane.
    pub open spec fn w_out(&self) -> int {
        self.w - self.k + 1
    }

    /// Entries of the input buffer.
    pub open spec fn input_volume(&self) -> int {
        volume4(self.batch as int, self.in_c as int, self.h as int, self.w as int)
    }

    /// Entries of the weight buffer.
    pub open spec fn weight_volume(&self) -> int {
        volume4(self.out_c as int, self.in_c as int, self.k as int, self.k as int)
    }

    /// Entries of the output buffer.
    pub open spec fn output_volume(&self) -> int {
        volume4(self.batch as int, self.out_c as int, self.h_out(), self.w_out())
    }

    /// Products that one output entry accumulates.
    pub open spec fn tap_count(&self) -> int {
        self.in_c * self.k * self.k
    }

    /// The kernel fits inside the plane, so the output extents are positive,
    /// and each of them can be held in a `usize`.
    pub open spec fn spans(&self) -> bool {
        &&& self.k <= self.h
        &&& self.k <= self.w
        &&& self.h_out() <= usize::MAX
        &&& self.w_out() <= usize::MAX
    }

    /// The three buffers have exactly the lengths that the extents declare.
    pub open spec fn fits(&self, input_len: int, weight_len: int, bias_len: int) -> bool {
        &&& input_len == self.input_volume()
        &&& weight_len == self.weight_volume()
        &&& bias_len == self.out_c
    }

    /// A shape that `new` accepts: the kernel fits and every buffer is addressable.
    pub open spec fn wf(&self) -> bool {
        &&& self.spans()
        &&& self.input_volume() <= usize::MAX
        &&& self.weight_volume() <= usize::MAX
        &&& self.output_volume() <= usize::MAX
    }

    /// The verdict on a shape and the lengths of the buffers offered with it.
    /// A kernel larger than the plane is reported before any length is
    /// compared; an output too long to address is reported last.
    pub open spec fn verdict(self, input_len: int, weight_len: int, bias_len: int) -> Result<
        ConvShape,
        KernelError,
    > {
        if !self.spans() {
            Err(KernelError::IndexOutOfBounds)
        } else if !self.fits(input_len, weight_len, bias_len) {
            Err(KernelError::ShapeMismatch)
        } else if self.output_volume() > usize::MAX {
            Err(KernelError::IndexOutOfBounds)
        } else {
            Ok(self)
        }
    }

    /// Offset of `input[b][ic][y][x]`.
    pub open spec fn input_index(&self, b: int, ic: int, y: int, x: int) -> int {
        offset4(self.in_c as int, self.h as int, self.w as int, b, ic, y, x)
    }

    /// Offset of `weight[oc][ic][ki][kj]`.
    pub open spec fn weight_index(&self, oc: int, ic: int, ki: int, kj: int) -> int {
        offset4(self.in_c as int, self.k as int, self.k as int, oc, ic, ki, kj)
    }

    /// Offset of `output[b][oc][i][j]`.
    pub open spec fn output_index(&self, b: int, oc: int, i: int, j: int) -> int {
        offset4(self.out_c as int, self.h_out(), self.w_out(), b, oc, i, j)
    }

    /// The indices `[b][oc][i][j]` of the output entry stored at offset `idx`.
    pub open spec fn cell_at(&self, idx: int) -> (int, int, int, int) {
        cell4(self.out_c as int, self.h_out(), self.w_out(), idx)
    }

    /// Position of the product for input channel `ic` and kernel entry
    /// `(ki, kj)` in the accumulation order: channels outermost, then kernel
    /// rows, then kernel columns.
    pub open spec fn tap_slot(&self, ic: int, ki: int, kj: int) -> int {
        (ic * self.k + ki) * self.k + kj
    }

    /// The `t`-th product accumulated into `output[b][oc][i][j]`, as the pair
    /// of the input offset and the weight offset that it multiplies.
    pub open spec fn tap_at(&self, b: int, oc: int, i: int, j: int, t: int) -> (int, int) {
        let k = self.k as int;
        let ic = (t / k) / k;
        let ki = (t / k) % k;
        let kj = t % k;
        (self.input_index(b, ic, i + ki, j + kj), self.weight_index(oc, ic, ki, kj))
    }

    /// `partial` lists the running values of `output[b][oc][i][j]`: it starts
    /// at `bias[oc]`, and step `t` hands `f` the running value and the input
    /// and weight entries of the `t`-th product, in accumulation order.
    pub open spec fn is_partial_sums<T, F: Fn(T, T, T) -> T>(
        &self,
        f: F,
        input: Seq<T>,
        weight: Seq<T>,
        bias: Seq<T>,
        b: int,
        oc: int,
        i: int,
        j: int,
        partial: Seq<T>,
    ) -> bool {
        &&& partial.len() == self.tap_count() + 1
        &&& partial[0] == bias[oc]
        &&& forall|t: int|
            0 <= t < self.tap_count() ==> f.ensures(
                (
                    #[trigger] partial[t],
                    input[self.tap_at(b, oc, i, j, t).0],
                    weight[self.tap_at(b, oc, i, j, t).1],
                ),
                partial[t + 1],
            )
    }

    /// `acc` is a value that accumulating all products of
    /// `output[b][oc][i][j]` into `bias[oc]` with `f`, in accumulation order,
    /// can give.
    pub open spec fn sums_to<T, F: Fn(T, T, T) -> T>(
        &self,
        f: F,
        input: Seq<T>,
        weight: Seq<T>,
        bias: Seq<T>,
        b: int,
        oc: int,
        i: int,
        j: int,
        acc: T,
    ) -> bool {
        exists|partial: Seq<T>|
            #[trigger] self.is_partial_sums(f, input, weight, bias, b, oc, i, j, partial)
                && partial[self.tap_count()] == acc
    }

    /// Validates the extents against the lengths of the input, weight and
    /// bias buffers.
    pub fn new(
        input_len: usize,
        weight_len: usize,
        bias_len: usize,
        batch: usize,
        in_c: usize,
        out_c: usize,
        h: usize,
        w: usize,
        k: usize,
    ) -> (r: Result<ConvShape, KernelError>)
        ensures
            r == (ConvShape { batch, in_c, out_c, h, w, k }).verdict(
                input_len as int,
                weight_len as int,
                bias_len as int,
            ),
            r matches Ok(s) ==> s.wf(),
    {
        let shape = ConvShape { batch, in_c, out_c, h, w, k };
        if k > h || k > w {
            return Err(KernelError::IndexOutOfBounds);
        }
        let h_out: usize = match (h - k).checked_add(1) {
            Some(v) => v,
            None => {
                return Err(KernelError::IndexOutOfBounds);
            },
        };
        let w_out: usize = match (w - k).checked_add(1) {
            Some(v) => v,
            None => {
                return Err(KernelError::IndexOutOfBounds);
            },
        };
        let input_ok = match checked_volume4(batch, in_c, h, w) {
            Some(v) => v == input_len,
            None => false,
        };
        let weight_ok = match checked_volume4(out_c, in_c, k, k) {
            Some(v) => v == weight_len,
            None => false,
        };
        if !input_ok || !weight_ok || bias_len != out_c {
            return Err(KernelError::ShapeMismatch);
        }
        match checked_volume4(batch, out_c, h_out, w_out) {
            Some(_) => Ok(shape),
            None => Err(KernelError::IndexOutOfBounds),
        }
    }

    /// The four extents of the output: batch, filters, rows, columns.
    pub fn output_dims(&self) -> (r: (usize, usize, usize, usize))
        requires
            self.wf(),
        ensures
            r.0 == self.batch,
            r.1 == self.out_c,
            r.2 == self.h - self.k + 1,
            r.3 == self.w - self.k + 1,
    {
        (self.batch, self.out_c, self.h - self.k + 1, self.w - self.k + 1)
    }

    /// Length of the output buffer.
    pub fn output_len(&self) -> (r: usize)
        requires
            self.wf(),
        ensures
            r == self.output_volume(),
            r == self.batch * self.out_c * (self.h - self.k + 1) * (self.w - self.k + 1),
    {
        let d = self.output_dims();
        match checked_volume4(d.0, d.1, d.2, d.3) {
            Some(v) => v,
            None => 0,
        }
    }

    /// The output entry `[b][oc][i][j]` stored at offset `idx`.
    pub fn cell(&self, idx: usize) -> (r: (usize, usize, usize, usize))
        requires
            self.wf(),
            idx < self.output_volume(),
        ensures
            (r.0 as int, r.1 as int, r.2 as int, r.3 as int) == self.cell_at(idx as int),
            r.0 < self.batch,
            r.1 < self.out_c,
            r.2 < self.h_out(),
            r.3 < self.w_out(),
            self.output_index(r.0 as int, r.1 as int, r.2 as int, r.3 as int) == idx,
    {
        let d = self.output_dims();
        proof {
            lemma_offset4_of_cell4(
                self.batch as int,
                self.out_c as int,
                self.h_out(),
                self.w_out(),
                idx as int,
            );
        }
        split4(d.1, d.2, d.3, idx)
    }

    /// The products accumulated into `output[b][oc][i][j]`, in accumulation
    /// order, each as the pair of an input offset and a weight offset.
    #[verifier::loop_isolation(false)]
    pub fn taps(&self, b: usize, oc: usize, i: usize, j: usize) -> (r: Vec<(usize, usize)>)
        requires
            self.wf(),
            b < self.batch,
            oc < self.out_c,
            i < self.h_out(),
            j < self.w_out(),
        ensures
            r@.len() == self.tap_count(),
            forall|t: int|
                0 <= t < r@.len() ==> {
                    &&& (#[trigger] r@[t]).0 == self.tap_at(b as int, oc as int, i as int, j as int, t).0
                    &&& r@[t].1 == self.tap_at(b as int, oc as int, i as int, j as int, t).1
                    &&& r@[t].0 < self.input_volume()
                    &&& r@[t].1 < self.weight_volume()
                },
    {
        let mut r: Vec<(usize, usize)> = Vec::new();
        let k = self.k;
        let mut ic: usize = 0;
        while ic < self.in_c
            invariant
                ic <= self.in_c,
                k == self.k,
                r@.len() == self.tap_slot(ic as int, 0, 0),
                forall|t: int|
                    0 <= t < r@.len() ==> {
                        &&& (#[trigger] r@[t]).0 == self.tap_at(b as int, oc as int, i as int, j as int, t).0
                        &&& r@[t].1 == self.tap_at(b as int, oc as int, i as int, j as int, t).1
                        &&& r@[t].0 < self.input_volume()
                        &&& r@[t].1 < self.weight_volume()
                    },
            decreases self.in_c - ic,
        {
            let mut ki: usize = 0;
            while ki < k
                invariant
                    ic < self.in_c,
                    ki <= k,
                    r@.len() == self.tap_slot(ic as int, ki as int, 0),
                    forall|t: int|
                        0 <= t < r@.len() ==> {
                            &&& (#[trigger] r@[t]).0 == self.tap_at(b as int, oc as int, i as int, j as int, t).0
                            &&& r@[t].1 == self.tap_at(b as int, oc as int, i as int, j as int, t).1
                            &&& r@[t].0 < self.input_volume()
                            &&& r@[t].1 < self.weight_volume()
                        },
                decreases k - ki,
            {
                let mut kj: usize = 0;
                while kj < k
                    invariant
                        ic < self.in_c,
                        ki < k,
                        kj <= k,
                        r@.len() == self.tap_slot(ic as int, ki as int, kj as int),
                        forall|t: int|
                            0 <= t < r@.len() ==> {
                                &&& (#[trigger] r@[t]).0 == self.tap_at(
                                    b as int,
                                    oc as int,
                                    i as int,
                                    j as int,
                                    t,
                                ).0
                                &&& r@[t].1 == self.tap_at(
                                    b as int,
                                    oc as int,
                                    i as int,
                                    j as int,
                                    t,
                                ).1
                                &&& r@[t].0 < self.input_volume()
                                &&& r@[t].1 < self.weight_volume()
                            },
                    decreases k - kj,
                {
                    proof {
                        lemma_offset4_bound(
                            self.batch as int,
                            self.in_c as int,
                            self.h as int,
                            self.w as int,
                            b as int,
                            ic as int,
                            i + ki,
                            j + kj,
                        );
                        lemma_offset4_bound(
                            self.out_c as int,
                            self.in_c as int,
                            k as int,
                            k as int,
                            oc as int,
                            ic as int,
                            ki as int,
                            kj as int,
                        );
                        self.lemma_tap_at_slot(
                            b as int,
                            oc as int,
                            i as int,
                            j as int,
                            ic as int,
                            ki as int,
                            kj as int,
                        );
                    }
                    let in_idx = ((b * self.in_c + ic) * self.h + (i + ki)) * self.w + (j + kj);
                    let w_idx = ((oc * self.in_c + ic) * k + ki) * k + kj;
                    r.push((in_idx, w_idx));
                    kj += 1;
                }
                assert((ic * k + ki) * k + k == (ic * k + (ki + 1)) * k + 0) by (nonlinear_arith);
                ki += 1;
            }
            assert((ic * k + k) * k + 0 == ((ic + 1) * k + 0) * k + 0) by (nonlinear_arith);
            ic += 1;
        }
        assert((self.in_c * k + 0) * k + 0 == self.in_c * k * k) by (nonlinear_arith);
        r
    }

    /// The product for input channel `ic` and kernel entry `(ki, kj)` stands
    /// at position `tap_slot(ic, ki, kj)` of the accumulation order, and
    /// multiplies `input[b][ic][i + ki][j + kj]` by `weight[oc][ic][ki][kj]`.
    pub proof fn lemma_tap_at_slot(
        &self,
        b: int,
        oc: int,
        i: int,
        j: int,
        ic: int,
        ki: int,
        kj: int,
    )
        requires
            0 <= ki < self.k,
            0 <= kj < self.k,
        ensures
            self.tap_at(b, oc, i, j, self.tap_slot(ic, ki, kj)) == (
                self.input_index(b, ic, i + ki, j + kj),
                self.weight_index(oc, ic, ki, kj),
            ),
    {
        lemma_offset2_split(self.k as int, ic * self.k + ki, kj);
        lemma_offset2_split(self.k as int, ic, ki);
    }

    /// With a single input channel, a single filter and a one-by-one kernel,
    /// the output has the extents of the input, and each output entry
    /// accumulates exactly one product: the input entry at its own offset
    /// times the only weight.
    pub proof fn lemma_unit_kernel(&self, b: int, i: int, j: int)
        requires
            self.in_c == 1,
            self.out_c == 1,
            self.k == 1,
        ensures
            self.h_out() == self.h,
            self.w_out() == self.w,
            self.output_volume() == self.input_volume(),
            self.tap_count() == 1,
            self.output_index(b, 0, i, j) == self.input_index(b, 0, i, j),
            self.tap_at(b, 0, i, j, 0) == (self.output_index(b, 0, i, j), 0int),
    {
        self.lemma_tap_at_slot(b, 0, i, j, 0, 0, 0);
    }

    /// Two lists of running values for the same entry agree at every step,
    /// when the result of `f` is determined by its arguments.
    proof fn lemma_partial_sums_agree<T, F: Fn(T, T, T) -> T>(
        &self,
        f: F,
        input: Seq<T>,
        weight: Seq<T>,
        bias: Seq<T>,
        b: int,
        oc: int,
        i: int,
        j: int,
        p: Seq<T>,
        q: Seq<T>,
        t: int,
    )
        requires
            forall|args: (T, T, T), r1: T, r2: T|
                #[trigger] f.ensures(args, r1) && #[trigger] f.ensures(args, r2) ==> r1 == r2,
            self.is_partial_sums(f, input, weight, bias, b, oc, i, j, p),
            self.is_partial_sums(f, input, weight, bias, b, oc, i, j, q),
            0 <= t <= self.tap_count(),
        ensures
            p[t] == q[t],
        decreases t,
    {
        if t > 0 {
            self.lemma_partial_sums_agree(f, input, weight, bias, b, oc, i, j, p, q, t - 1);
            let x = input[self.tap_at(b, oc, i, j, t - 1).0];
            let y = weight[self.tap_at(b, oc, i, j, t - 1).1];
            assert(f.ensures((p[t - 1], x, y), p[t - 1 + 1]));
            assert(f.ensures((q[t - 1], x, y), q[t - 1 + 1]));
        }
    }

    /// An output entry has one value: when the result of `f` is determined by
    /// its arguments, any two values that the accumulation of
    /// `output[b][oc][i][j]` can give are the same.
    pub proof fn lemma_sums_to_unique<T, F: Fn(T, T, T) -> T>(
        &self,
        f: F,
        input: Seq<T>,
        weight: Seq<T>,
        bias: Seq<T>,
        b: int,
        oc: int,
        i: int,
        j: int,
        acc1: T,
        acc2: T,
    )
        requires
            forall|args: (T, T, T), r1: T, r2: T|
                #[trigger] f.ensures(args, r1) && #[trigger] f.ensures(args, r2) ==> r1 == r2,
            self.sums_to(f, input, weight, bias, b, oc, i, j, acc1),
            self.sums_to(f, input, weight, bias, b, oc, i, j, acc2),
        ensures
            acc1 == acc2,
    {
        let p = choose|p: Seq<T>|
            #[trigger] self.is_partial_sums(f, input, weight, bias, b, oc, i, j, p)
                && p[self.tap_count()] == acc1;
        let q = choose|q: Seq<T>|
            #[trigger] self.is_partial_sums(f, input, weight, bias, b, oc, i, j, q)
                && q[self.tap_count()] == acc2;
        assert(0 <= self.in_c * self.k * self.k) by (nonlinear_arith);
        self.lemma_partial_sums_agree(
            f,
            input,
            weight,
            bias,
            b,
            oc,
            i,
            j,
            p,
            q,
            self.tap_count(),
        );
    }

    /// A one-by-one kernel of weight `one` with bias `zero` copies the input.
    /// With a single input channel and a single filter, and an `f` that
    /// returns the input entry `x` at the offset of `output[b][0][i][j]` for
    /// the running value `zero` and the entries `x` and `one`, that output
    /// entry is `x`.
    pub proof fn lemma_unit_kernel_copies<T, F: Fn(T, T, T) -> T>(
        &self,
        f: F,
        zero: T,
        one: T,
        input: Seq<T>,
        weight: Seq<T>,
        bias: Seq<T>,
        b: int,
        i: int,
        j: int,
        acc: T,
    )
        requires
            self.in_c == 1,
            self.out_c == 1,
            self.k == 1,
            weight[0] == one,
            bias[0] == zero,
            forall|r: T| #[trigger]
                f.ensures((zero, input[self.input_index(b, 0, i, j)], one), r) ==> r
                    == input[self.input_index(b, 0, i, j)],
            self.sums_to(f, input, weight, bias, b, 0, i, j, acc),
        ensures
            acc == input[self.output_index(b, 0, i, j)],
            self.output_index(b, 0, i, j) == self.input_index(b, 0, i, j),
            self.output_volume() == self.input_volume(),
    {
        self.lemma_unit_kernel(b, i, j);
        let p = choose|p: Seq<T>|
            #[trigger] self.is_partial_sums(f, input, weight, bias, b, 0, i, j, p)
                && p[self.tap_count()] == acc;
        let x = input[self.tap_at(b, 0, i, j, 0).0];
        let y = weight[self.tap_at(b, 0, i, j, 0).1];
        assert(f.ensures((p[0], x, y), p[0int + 1]));
    }

    /// The sum of the first `count` products of `output[b][oc][i][j]`, each
    /// entry read as the integer that `val` gives it.
    pub open spec fn tap_sum<T>(
        &self,
        val: spec_fn(T) -> int,
        input: Seq<T>,
        weight: Seq<T>,
        b: int,
        oc: int,
        i: int,
        j: int,
        count: int,
    ) -> int
        decreases count,
    {
        if count <= 0 {
            0
        } else {
            self.tap_sum(val, input, weight, b, oc, i, j, count - 1) + val(
                input[self.tap_at(b, oc, i, j, count - 1).0],
            ) * val(weight[self.tap_at(b, oc, i, j, count - 1).1])
        }
    }

    /// Running values under an exact step: after `t` steps the running value
    /// stands for the bias plus the first `t` products.
    proof fn lemma_exact_partial<T, F: Fn(T, T, T) -> T>(
        &self,
        f: F,
        val: spec_fn(T) -> int,
        input: Seq<T>,
        weight: Seq<T>,
        bias: Seq<T>,
        b: int,
        oc: int,
        i: int,
        j: int,
        p: Seq<T>,
        t: int,
    )
        requires
            forall|a: T, x: T, y: T, r: T| #[trigger]
                f.ensures((a, x, y), r) ==> val(r) == val(a) + val(x) * val(y),
            self.is_partial_sums(f, input, weight, bias, b, oc, i, j, p),
            0 <= t <= self.tap_count(),
        ensures
            val(p[t]) == val(bias[oc]) + self.tap_sum(val, input, weight, b, oc, i, j, t),
        decreases t,
    {
        if t > 0 {
            self.lemma_exact_partial(f, val, input, weight, bias, b, oc, i, j, p, t - 1);
            let x = input[self.tap_at(b, oc, i, j, t - 1).0];
            let y = weight[self.tap_at(b, oc, i, j, t - 1).1];
            assert(f.ensures((p[t - 1], x, y), p[t - 1 + 1]));
        }
    }

    /// With exact scalar arithmetic the convolution is the textbook one. Let
    /// `val` read each scalar as an integer, and let every step of `f` be
    /// exact under it: the result stands for the running value plus the
    /// product of the two entries. Then `output[b][oc][i][j]` stands for
    /// `bias[oc]` plus the sum of all products of input and weight entries
    /// under the kernel.
    pub proof fn lemma_exact_sum<T, F: Fn(T, T, T) -> T>(
        &self,
        f: F,
        val: spec_fn(T) -> int,
        input: Seq<T>,
        weight: Seq<T>,
        bias: Seq<T>,
        b: int,
        oc: int,
        i: int,
        j: int,
        acc: T,
    )
        requires
            forall|a: T, x: T, y: T, r: T| #[trigger]
                f.ensures((a, x, y), r) ==> val(r) == val(a) + val(x) * val(y),
            self.sums_to(f, input, weight, bias, b, oc, i, j, acc),
        ensures
            val(acc) == val(bias[oc]) + self.tap_sum(
                val,
                input,
                weight,
                b,
                oc,
                i,
                j,
                self.tap_count(),
            ),
    {
        let p = choose|p: Seq<T>|
            #[trigger] self.is_partial_sums(f, input, weight, bias, b, oc, i, j, p)
                && p[self.tap_count()] == acc;
        assert(0 <= self.in_c * self.k * self.k) by (nonlinear_arith);
        self.lemma_exact_partial(f, val, input, weight, bias, b, oc, i, j, p, self.tap_count());
    }
}

/// Valid, stride-one 2-D convolution with bias of a flat row-major input of
/// extents `(batch, in_c, h, w)` by `out_c` filters of extents `(in_c, k, k)`.
/// The output has extents `(batch, out_c, h - k + 1, w - k + 1)`. Each entry
/// starts from the bias of its filter and takes
/// `mul_add(acc, input[b][ic][i + ki][j + kj], weight[oc][ic][ki][kj])` with
/// `ic` outermost, then `ki`, then `kj`. Nothing is computed when the
/// arguments are refused.
pub fn conv2d_forward<T: Copy, F: Fn(T, T, T) -> T>(
    input: Vec<T>,
    weight: Vec<T>,
    bias: Vec<T>,
    batch: usize,
    in_c: usize,
    out_c: usize,
    h: usize,
    w: usize,
    k: usize,
    mul_add: F,
) -> (r: Result<Vec<T>, KernelError>)
    requires
        forall|acc: T, x: T, y: T| mul_add.requires((acc, x, y)),
    ensures
        (ConvShape { batch, in_c, out_c, h, w, k }).verdict(
            input@.len() as int,
            weight@.len() as int,
            bias@.len() as int,
        ) matches Err(e) ==> r == Err::<Vec<T>, KernelError>(e),
        (ConvShape { batch, in_c, out_c, h, w, k }).verdict(
            input@.len() as int,
            weight@.len() as int,
            bias@.len() as int,
        ) is Ok ==> r is Ok,
        r matches Ok(out) ==> {
            &&& out@.len() == (ConvShape { batch, in_c, out_c, h, w, k }).output_volume()
            &&& forall|b: int, oc: int, i: int, j: int|
                0 <= b < batch && 0 <= oc < out_c && 0 <= i < h - k + 1 && 0 <= j < w - k + 1 ==> (
                ConvShape { batch, in_c, out_c, h, w, k }).sums_to(
                    mul_add,
                    input@,
                    weight@,
                    bias@,
                    b,
                    oc,
                    i,
                    j,
                    out@[#[trigger] (ConvShape { batch, in_c, out_c, h, w, k }).output_index(
                        b,
                        oc,
                        i,
                        j,
                    )],
                )
        },
{
    let s = match ConvShape::new(input.len(), weight.len(), bias.len(), batch, in_c, out_c, h, w, k) {
        Ok(s) => s,
        Err(e) => {
            return Err(e);
        },
    };
    let total = s.output_len();
    let mut out: Vec<T> = Vec::new();
    let mut idx: usize = 0;
    while idx < total
        invariant
            s.wf(),
            s == (ConvShape { batch, in_c, out_c, h, w, k }),
            s.fits(input@.len() as int, weight@.len() as int, bias@.len() as int),
            total == s.output_volume(),
            idx <= total,
            out@.len() == idx,
            forall|acc: T, x: T, y: T| mul_add.requires((acc, x, y)),
            forall|x: int|
                0 <= x < idx ==> s.sums_to(
                    mul_add,
                    input@,
                    weight@,
                    bias@,
                    s.cell_at(x).0,
                    s.cell_at(x).1,
                    s.cell_at(x).2,
                    s.cell_at(x).3,
                    #[trigger] out@[x],
                ),
        decreases total - idx,
    {
        let (b, oc, i, j) = s.cell(idx);
        let taps = s.taps(b, oc, i, j);
        let mut acc = bias[oc];
        let ghost mut partial: Seq<T> = seq![acc];
        let mut t: usize = 0;
        while t < taps.len()
            invariant
                t <= taps@.len(),
                taps@.len() == s.tap_count(),
                s.fits(input@.len() as int, weight@.len() as int, bias@.len() as int),
                forall|u: int|
                    0 <= u < taps@.len() ==> {
                        &&& (#[trigger] taps@[u]).0 == s.tap_at(b as int, oc as int, i as int, j as int, u).0
                        &&& taps@[u].1 == s.tap_at(b as int, oc as int, i as int, j as int, u).1
                        &&& taps@[u].0 < s.input_volume()
                        &&& taps@[u].1 < s.weight_volume()
                    },
                forall|acc: T, x: T, y: T| mul_add.requires((acc, x, y)),
                partial.len() == t + 1,
                partial[0] == bias@[oc as int],
                partial[t as int] == acc,
                forall|u: int|
                    0 <= u < t ==> mul_add.ensures(
                        (
                            #[trigger] partial[u],
                            input@[s.tap_at(b as int, oc as int, i as int, j as int, u).0],
                            weight@[s.tap_at(b as int, oc as int, i as int, j as int, u).1],
                        ),
                        partial[u + 1],
                    ),
            decreases taps@.len() - t,
        {
            let p = taps[t];
            acc = mul_add(acc, input[p.0], weight[p.1]);
            t += 1;
            proof {
                partial = partial.push(acc);
            }
        }
        assert(s.is_partial_sums(
            mul_add,
            input@,
            weight@,
            bias@,
            b as int,
            oc as int,
            i as int,
            j as int,
            partial,
        ));
        out.push(acc);
        idx += 1;
    }
    assert forall|b: int, oc: int, i: int, j: int|
        0 <= b < batch && 0 <= oc < out_c && 0 <= i < h - k + 1 && 0 <= j < w - k + 1 implies s.sums_to(
        mul_add,
        input@,
        weight@,
        bias@,
        b,
        oc,
        i,
        j,
        out@[#[trigger] s.output_index(b, oc, i, j)],
    ) by {
        lemma_offset4_bound(batch as int, out_c as int, s.h_out(), s.w_out(), b, oc, i, j);
        lemma_cell4_of_offset4(out_c as int, s.h_out(), s.w_out(), b, oc, i, j);
    }
    Ok(out)
}

} // verus!
