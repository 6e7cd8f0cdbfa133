use vstd::prelude::*;
use crate::error::KernelError;
use crate::layout::{
    cell4, checked_volume4, lemma_cell4_of_offset4, lemma_offset2_bound, lemma_offset2_join,
    lemma_offset2_split, lemma_offset4_bound, lemma_offset4_injective, lemma_offset4_of_cell4,
    offset4, split4, volume4,
};

verus! {

/// Extents of a non-overlapping 2-D max pooling: an input of
/// `batch * channels * h * w` entries and a square window of side `k` that
/// moves by its own size. Rows and columns that fill no whole window are dropped.
#[derive(Clone, Copy, Debug, PartialEq, Eq)]
pub struct PoolShape {
    pub batch: usize,
    pub channels: usize,
    pub h: usize,
    pub w: usize,
    pub k: usize,
}

impl PoolShape {
    /// Rows of one output plane.
    pub open spec fn h_out(&self) -> int {
        self.h as int / self.k as int
    }

    /// Columns of one output plane.
    pub open spec fn w_out(&self) -> int {
        self.w as int / self.k as int
    }

    /// Entries of the input buffer.
    pub open spec fn input_volume(&self) -> int {
        volume4(self.batch as int, self.channels as int, self.h as int, self.w as int)
    }

    /// Entries of the output buffer.
    pub open spec fn output_volume(&self) -> int {
        volume4(self.batch as int, self.channels as int, self.h_out(), self.w_out())
    }

    /// Entries of one window.
    pub open spec fn window_count(&self) -> int {
        self.k * self.k
    }

    /// A shape that `new` accepts: the window is not empty and the input is addressable.
    pub open spec fn wf(&self) -> bool {
        &&& self.k > 0
        &&& self.input_volume() <= usize::MAX
    }

    /// The verdict on a shape and the length of the input offered with it.
    /// An empty window is reported before the length is compared. A window
    /// larger than the plane is accepted and gives an empty output.
    pub open spec fn verdict(self, input_len: int) -> Result<PoolShape, KernelError> {
        if self.k == 0 {
            Err(KernelError::IndexOutOfBounds)
        } else if input_len != self.input_volume() {
            Err(KernelError::ShapeMismatch)
        } else {
            Ok(self)
        }
    }

    /// Offset of `input[b][c][y][x]`.
    pub open spec fn input_index(&self, b: int, c: int, y: int, x: int) -> int {
        offset4(self.channels as int, self.h as int, self.w as int, b, c, y, x)
    }

    /// Offset of `output[b][c][i][j]`.
    pub open spec fn output_index(&self, b: int, c: int, i: int, j: int) -> int {
        offset4(self.channels as int, self.h_out(), self.w_out(), b, c, i, j)
    }

    /// The indices `[b][c][i][j]` of the output entry stored at offset `idx`.
    pub open spec fn cell_at(&self, idx: int) -> (int, int, int, int) {
        cell4(self.channels as int, self.h_out(), self.w_out(), idx)
    }

    /// Offset of the `t`-th input entry under the window of
    /// `output[b][c][i][j]`, the window read row by row.
    pub open spec fn window_at(&self, b: int, c: int, i: int, j: int, t: int) -> int {
        let k = self.k as int;
        self.input_index(b, c, i * k + t / k, j * k + t % k)
    }

    /// `partial` lists the running values of `output[b][c][i][j]`: it starts
    /// at `lowest`, and step `t` hands `f` the running value and the `t`-th
    /// input entry under the window.
    pub open spec fn is_partial_maxes<T, F: Fn(T, T) -> T>(
        &self,
        f: F,
        lowest: T,
        input: Seq<T>,
        b: int,
        c: int,
        i: int,
        j: int,
        partial: Seq<T>,
    ) -> bool {
        &&& partial.len() == self.window_count() + 1
        &&& partial[0] == lowest
        &&& forall|t: int|
            0 <= t < self.window_count() ==> f.ensures(
                (#[trigger] partial[t], input[self.window_at(b, c, i, j, t)]),
                partial[t + 1],
            )
    }

    /// `acc` is a value that folding the window of `output[b][c][i][j]` into
    /// `lowest` with `f`, row by row, can give.
    pub open spec fn maxes_to<T, F: Fn(T, T) -> T>(
        &self,
        f: F,
        lowest: T,
        input: Seq<T>,
        b: int,
        c: int,
        i: int,
        j: int,
        acc: T,
    ) -> bool {
        exists|partial: Seq<T>|
            #[trigger] self.is_partial_maxes(f, lowest, input, b, c, i, j, partial)
                && partial[self.window_count()] == acc
    }

    /// Validates the extents against the length of the input buffer.
    pub fn new(input_len: usize, batch: usize, channels: usize, h: usize, w: usize, k: usize) -> (r:
        Result<PoolShape, KernelError>)
        ensures
            r == (PoolShape { batch, channels, h, w, k }).verdict(input_len as int),
            r matches Ok(s) ==> s.wf(),
    {
        if k == 0 {
            return Err(KernelError::IndexOutOfBounds);
        }
        match checked_volume4(batch, channels, h, w) {
            Some(v) => {
                if v == input_len {
                    Ok(PoolShape { batch, channels, h, w, k })
                } else {
                    Err(KernelError::ShapeMismatch)
                }
            },
            None => Err(KernelError::ShapeMismatch),
        }
    }

    /// The output never has more entries than the input, so it is addressable
    /// whenever the input is.
    pub proof fn lemma_output_fits(&self)
        requires
            self.k > 0,
        ensures
            0 <= self.h_out() <= self.h,
            0 <= self.w_out() <= self.w,
            0 <= self.output_volume() <= self.input_volume(),
    {
        let bc = self.batch * self.channels;
        let (h, w, k) = (self.h as int, self.w as int, self.k as int);
        assert(0 <= h / k <= h && 0 <= w / k <= w) by (nonlinear_arith)
            requires
                k > 0,
                h >= 0,
                w >= 0,
        ;
        assert(0 <= bc * (h / k) * (w / k) <= bc * h * w) by (nonlinear_arith)
            requires
                0 <= bc,
                0 <= h / k <= h,
                0 <= w / k <= w,
        ;
        assert(0 <= bc) by (nonlinear_arith)
            requires
                bc == self.batch * self.channels,
        ;
    }

    /// A window that starts inside the output plane ends inside the input plane.
    pub proof fn lemma_window_inside(&self, i: int, j: int, ki: int, kj: int)
        requires
            self.k > 0,
            0 <= i < self.h_out(),
            0 <= j < self.w_out(),
            0 <= ki < self.k,
            0 <= kj < self.k,
        ensures
            0 <= i * self.k + ki < self.h,
            0 <= j * self.k + kj < self.w,
    {
        let (h, w, k) = (self.h as int, self.w as int, self.k as int);
        lemma_offset2_bound(h / k, k, i, ki);
        lemma_offset2_bound(w / k, k, j, kj);
        assert((h / k) * k <= h && (w / k) * k <= w) by (nonlinear_arith)
            requires
                k > 0,
                h >= 0,
                w >= 0,
        ;
    }

    /// The four extents of the output: batch, channels, rows, columns.
    pub fn output_dims(&self) -> (r: (usize, usize, usize, usize))
        requires
            self.wf(),
        ensures
            r.0 == self.batch,
            r.1 == self.channels,
            r.2 == self.h as int / self.k as int,
            r.3 == self.w as int / self.k as int,
    {
        (self.batch, self.channels, self.h / self.k, self.w / self.k)
    }

    /// Length of the output buffer.
    pub fn output_len(&self) -> (r: usize)
        requires
            self.wf(),
        ensures
            r == self.output_volume(),
            r == self.batch * self.channels * (self.h as int / self.k as int) * (self.w as int
                / self.k as int),
    {
        proof {
            self.lemma_output_fits();
        }
        let d = self.output_dims();
        match checked_volume4(d.0, d.1, d.2, d.3) {
            Some(v) => v,
            None => 0,
        }
    }

    /// The output entry `[b][c][i][j]` stored at offset `idx`.
    pub fn cell(&self, idx: usize) -> (r: (usize, usize, usize, usize))
        requires
            self.wf(),
            idx < self.output_volume(),
        ensures
            (r.0 as int, r.1 as int, r.2 as int, r.3 as int) == self.cell_at(idx as int),
            r.0 < self.batch,
            r.1 < self.channels,
            r.2 < self.h_out(),
            r.3 < self.w_out(),
            self.output_index(r.0 as int, r.1 as int, r.2 as int, r.3 as int) == idx,
    {
        let d = self.output_dims();
        proof {
            self.lemma_output_fits();
            lemma_offset4_of_cell4(
                self.batch as int,
                self.channels as int,
                self.h_out(),
                self.w_out(),
                idx as int,
            );
        }
        split4(d.1, d.2, d.3, idx)
    }

    /// The input offsets under the window of `output[b][c][i][j]`, row by row.
    #[verifier::loop_isolation(false)]
    pub fn window(&self, b: usize, c: usize, i: usize, j: usize) -> (r: Vec<usize>)
        requires
            self.wf(),
            b < self.batch,
            c < self.channels,
            i < self.h_out(),
            j < self.w_out(),
        ensures
            r@.len() == self.window_count(),
            r@.len() > 0,
            forall|t: int|
                0 <= t < r@.len() ==> {
                    &&& #[trigger] r@[t] == self.window_at(b as int, c as int, i as int, j as int, t)
                    &&& r@[t] < self.input_volume()
                },
    {
        let mut r: Vec<usize> = Vec::new();
        let k = self.k;
        let mut ki: usize = 0;
        while ki < k
            invariant
                ki <= k,
                k == self.k,
                r@.len() == ki * k,
                forall|t: int|
                    0 <= t < r@.len() ==> {
                        &&& #[trigger] r@[t] == self.window_at(b as int, c as int, i as int, j as int, t)
                        &&& r@[t] < self.input_volume()
                    },
            decreases k - ki,
        {
            let mut kj: usize = 0;
            while kj < k
                invariant
                    ki < k,
                    kj <= k,
                    r@.len() == ki * k + kj,
                    forall|t: int|
                        0 <= t < r@.len() ==> {
                            &&& #[trigger] r@[t] == self.window_at(b as int, c as int, i as int, j as int, t)
                            &&& r@[t] < self.input_volume()
                        },
                decreases k - kj,
            {
                proof {
                    self.lemma_window_inside(i as int, j as int, ki as int, kj as int);
                    lemma_offset4_bound(
                        self.batch as int,
                        self.channels as int,
                        self.h as int,
                        self.w as int,
                        b as int,
                        c as int,
                        i * k + ki,
                        j * k + kj,
                    );
                    lemma_offset2_split(k as int, ki as int, kj as int);
                }
                let y = i * k + ki;
                let x = j * k + kj;
                r.push(((b * self.channels + c) * self.h + y) * self.w + x);
                kj += 1;
            }
            assert(ki * k + k == (ki + 1) * k) by (nonlinear_arith);
            ki += 1;
        }
        assert(k * k > 0) by (nonlinear_arith)
            requires
                k > 0,
        ;
        r
    }

    /// Windows do not overlap: an input entry lies under the window of at
    /// most one output entry, and at one position of that window.
    pub proof fn lemma_windows_disjoint(
        &self,
        b: int,
        c: int,
        i: int,
        j: int,
        t: int,
        b2: int,
        c2: int,
        i2: int,
        j2: int,
        t2: int,
    )
        requires
            self.k > 0,
            0 <= c < self.channels,
            0 <= c2 < self.channels,
            0 <= i < self.h_out(),
            0 <= i2 < self.h_out(),
            0 <= j < self.w_out(),
            0 <= j2 < self.w_out(),
            0 <= t < self.window_count(),
            0 <= t2 < self.window_count(),
            self.window_at(b, c, i, j, t) == self.window_at(b2, c2, i2, j2, t2),
        ensures
            b == b2,
            c == c2,
            i == i2,
            j == j2,
            t == t2,
    {
        let k = self.k as int;
        lemma_offset2_join(k, k, t);
        lemma_offset2_join(k, k, t2);
        self.lemma_window_inside(i, j, t / k, t % k);
        self.lemma_window_inside(i2, j2, t2 / k, t2 % k);
        lemma_offset4_injective(
            self.channels as int,
            self.h as int,
            self.w as int,
            b,
            c,
            i * k + t / k,
            j * k + t % k,
            b2,
            c2,
            i2 * k + t2 / k,
            j2 * k + t2 % k,
        );
        lemma_offset2_split(k, i, t / k);
        lemma_offset2_split(k, i2, t2 / k);
        lemma_offset2_split(k, j, t % k);
        lemma_offset2_split(k, j2, t2 % k);
    }

    /// Two lists of running values for the same entry agree at every step,
    /// when the result of `f` is determined by its arguments.
    proof fn lemma_partial_maxes_agree<T, F: Fn(T, T) -> T>(
        &self,
        f: F,
        lowest: T,
        input: Seq<T>,
        b: int,
        c: int,
        i: int,
        j: int,
        p: Seq<T>,
        q: Seq<T>,
        t: int,
    )
        requires
            forall|args: (T, T), r1: T, r2: T|
                #[trigger] f.ensures(args, r1) && #[trigger] f.ensures(args, r2) ==> r1 == r2,
            self.is_partial_maxes(f, lowest, input, b, c, i, j, p),
            self.is_partial_maxes(f, lowest, input, b, c, i, j, q),
            0 <= t <= self.window_count(),
        ensures
            p[t] == q[t],
        decreases t,
    {
        if t > 0 {
            self.lemma_partial_maxes_agree(f, lowest, input, b, c, i, j, p, q, t - 1);
            let x = input[self.window_at(b, c, i, j, t - 1)];
            assert(f.ensures((p[t - 1], x), p[t - 1 + 1]));
            assert(f.ensures((q[t - 1], x), q[t - 1 + 1]));
        }
    }

    /// An output entry has one value: when the result of `f` is determined by
    /// its arguments, any two values that the fold of the window of
    /// `output[b][c][i][j]` can give are the same.
    pub proof fn lemma_maxes_to_unique<T, F: Fn(T, T) -> T>(
        &self,
        f: F,
        lowest: T,
        input: Seq<T>,
        b: int,
        c: int,
        i: int,
        j: int,
        acc1: T,
        acc2: T,
    )
        requires
            forall|args: (T, T), r1: T, r2: T|
                #[trigger] f.ensures(args, r1) && #[trigger] f.ensures(args, r2) ==> r1 == r2,
            self.maxes_to(f, lowest, input, b, c, i, j, acc1),
            self.maxes_to(f, lowest, input, b, c, i, j, acc2),
        ensures
            acc1 == acc2,
    {
        let p = choose|p: Seq<T>|
            #[trigger] self.is_partial_maxes(f, lowest, input, b, c, i, j, p)
                && p[self.window_count()] == acc1;
        let q = choose|q: Seq<T>|
            #[trigger] self.is_partial_maxes(f, lowest, input, b, c, i, j, q)
                && q[self.window_count()] == acc2;
        assert(0 <= self.window_count()) by (nonlinear_arith);
        self.lemma_partial_maxes_agree(f, lowest, input, b, c, i, j, p, q, self.window_count());
    }

    /// Running values over a window that holds `value` everywhere: `value`
    /// from the first step on.
    proof fn lemma_constant_partial<T, F: Fn(T, T) -> T>(
        &self,
        f: F,
        lowest: T,
        value: T,
        input: Seq<T>,
        b: int,
        c: int,
        i: int,
        j: int,
        p: Seq<T>,
        t: int,
    )
        requires
            forall|u: int|
                0 <= u < self.window_count() ==> input[#[trigger] self.window_at(b, c, i, j, u)]
                    == value,
            forall|r: T| #[trigger] f.ensures((lowest, value), r) ==> r == value,
            forall|r: T| #[trigger] f.ensures((value, value), r) ==> r == value,
            self.is_partial_maxes(f, lowest, input, b, c, i, j, p),
            1 <= t <= self.window_count(),
        ensures
            p[t] == value,
        decreases t,
    {
        if t > 1 {
            self.lemma_constant_partial(f, lowest, value, input, b, c, i, j, p, t - 1);
        }
        let x = input[self.window_at(b, c, i, j, t - 1)];
        assert(f.ensures((p[t - 1], x), p[t - 1 + 1]));
    }

    /// Pooling a constant gives that constant. Let every input entry under
    /// the window of `output[b][c][i][j]` be `value`, and let `f` return
    /// `value` both for `lowest` and `value` and for `value` and `value`.
    /// Then `output[b][c][i][j]` is `value`.
    pub proof fn lemma_constant_window<T, F: Fn(T, T) -> T>(
        &self,
        f: F,
        lowest: T,
        value: T,
        input: Seq<T>,
        b: int,
        c: int,
        i: int,
        j: int,
        acc: T,
    )
        requires
            self.k > 0,
            forall|u: int|
                0 <= u < self.window_count() ==> input[#[trigger] self.window_at(b, c, i, j, u)]
                    == value,
            forall|r: T| #[trigger] f.ensures((lowest, value), r) ==> r == value,
            forall|r: T| #[trigger] f.ensures((value, value), r) ==> r == value,
            self.maxes_to(f, lowest, input, b, c, i, j, acc),
        ensures
            acc == value,
    {
        let p = choose|p: Seq<T>|
            #[trigger] self.is_partial_maxes(f, lowest, input, b, c, i, j, p)
                && p[self.window_count()] == acc;
        assert(1 <= self.k * self.k) by (nonlinear_arith)
            requires
                self.k > 0,
        ;
        self.lemma_constant_partial(f, lowest, value, input, b, c, i, j, p, self.window_count());
    }

    /// Running values under an exact step: each is the start or one of the
    /// entries seen so far, and no smaller than any of them.
    proof fn lemma_exact_partial<T, F: Fn(T, T) -> T>(
        &self,
        f: F,
        val: spec_fn(T) -> int,
        lowest: T,
        input: Seq<T>,
        b: int,
        c: int,
        i: int,
        j: int,
        p: Seq<T>,
        t: int,
    )
        requires
            forall|a: T, x: T, r: T| #[trigger]
                f.ensures((a, x), r) ==> val(r) == (if val(a) >= val(x) {
                    val(a)
                } else {
                    val(x)
                }),
            self.is_partial_maxes(f, lowest, input, b, c, i, j, p),
            0 <= t <= self.window_count(),
        ensures
            val(p[t]) >= val(lowest),
            forall|u: int|
                0 <= u < t ==> val(p[t]) >= val(input[#[trigger] self.window_at(b, c, i, j, u)]),
            val(p[t]) == val(lowest) || exists|u: int|
                0 <= u < t && val(p[t]) == val(input[#[trigger] self.window_at(b, c, i, j, u)]),
        decreases t,
    {
        if t > 0 {
            self.lemma_exact_partial(f, val, lowest, input, b, c, i, j, p, t - 1);
            let x = input[self.window_at(b, c, i, j, t - 1)];
            assert(f.ensures((p[t - 1], x), p[t - 1 + 1]));
            if val(p[t]) != val(lowest) {
                if val(p[t]) == val(x) {
                    assert(0 <= t - 1 < t && val(p[t]) == val(
                        input[self.window_at(b, c, i, j, t - 1)],
                    ));
                } else {
                    let u = choose|u: int|
                        0 <= u < t - 1 && val(p[t - 1]) == val(
                            input[#[trigger] self.window_at(b, c, i, j, u)],
                        );
                    assert(0 <= u < t && val(p[t]) == val(input[self.window_at(b, c, i, j, u)]));
                }
            }
        }
    }

    /// With an exact comparison the pooling is a pure maximum. Let `val`
    /// read each scalar as an integer, and let `f` return a value that stands
    /// for the larger of its two arguments. Then `output[b][c][i][j]` is no
    /// smaller than `lowest` or any entry under its window, and stands for
    /// `lowest` or for one of those entries.
    pub proof fn lemma_exact_max<T, F: Fn(T, T) -> T>(
        &self,
        f: F,
        val: spec_fn(T) -> int,
        lowest: T,
        input: Seq<T>,
        b: int,
        c: int,
        i: int,
        j: int,
        acc: T,
    )
        requires
            forall|a: T, x: T, r: T| #[trigger]
                f.ensures((a, x), r) ==> val(r) == (if val(a) >= val(x) {
                    val(a)
                } else {
                    val(x)
                }),
            self.maxes_to(f, lowest, input, b, c, i, j, acc),
        ensures
            val(acc) >= val(lowest),
            forall|u: int|
                0 <= u < self.window_count() ==> val(acc) >= val(
                    input[#[trigger] self.window_at(b, c, i, j, u)],
                ),
            val(acc) == val(lowest) || exists|u: int|
                0 <= u < self.window_count() && val(acc) == val(
                    input[#[trigger] self.window_at(b, c, i, j, u)],
                ),
    {
        let p = choose|p: Seq<T>|
            #[trigger] self.is_partial_maxes(f, lowest, input, b, c, i, j, p)
                && p[self.window_count()] == acc;
        assert(0 <= self.k * self.k) by (nonlinear_arith);
        self.lemma_exact_partial(f, val, lowest, input, b, c, i, j, p, self.window_count());
    }
}

/// Non-overlapping 2-D max pooling of a flat row-major input of extents
/// `(batch, channels, h, w)` with a square window of side `k`. The output has
/// extents `(batch, channels, h / k, w / k)`, the divisions rounding down.
/// Each entry starts from `lowest` and takes `larger(acc, x)` for every input
/// entry `x` under its window, row by row. A window larger than the plane
/// gives an empty output. Nothing is computed when the arguments are refused.
pub fn maxpool2d_forward<T: Copy, F: Fn(T, T) -> T>(
    input: Vec<T>,
    batch: usize,
    channels: usize,
    h: usize,
    w: usize,
    k: usize,
    lowest: T,
    larger: F,
) -> (r: Result<Vec<T>, KernelError>)
    requires
        forall|acc: T, x: T| larger.requires((acc, x)),
    ensures
        (PoolShape { batch, channels, h, w, k }).verdict(input@.len() as int) matches Err(e)
            ==> r == Err::<Vec<T>, KernelError>(e),
        (PoolShape { batch, channels, h, w, k }).verdict(input@.len() as int) is Ok ==> r is Ok,
        r matches Ok(out) ==> {
            &&& out@.len() == (PoolShape { batch, channels, h, w, k }).output_volume()
            &&& forall|b: int, c: int, i: int, j: int|
                0 <= b < batch && 0 <= c < channels && 0 <= i < h as int / k as int && 0 <= j < w as int
                    / k as int ==> (PoolShape { batch, channels, h, w, k }).maxes_to(
                    larger,
                    lowest,
                    input@,
                    b,
                    c,
                    i,
                    j,
                    out@[#[trigger] (PoolShape { batch, channels, h, w, k }).output_index(b, c, i, j)],
                )
        },
{
    let s = match PoolShape::new(input.len(), batch, channels, h, w, k) {
        Ok(s) => s,
        Err(e) => {
            return Err(e);
        },
    };
    let total = s.output_len();
    let mut out: Vec<T> = Vec::new();
    let mut idx: usize = 0;
    while idx < total
        invariant
            s.wf(),
            s == (PoolShape { batch, channels, h, w, k }),
            input@.len() == s.input_volume(),
            total == s.output_volume(),
            idx <= total,
            out@.len() == idx,
            forall|acc: T, x: T| larger.requires((acc, x)),
            forall|x: int|
                0 <= x < idx ==> s.maxes_to(
                    larger,
                    lowest,
                    input@,
                    s.cell_at(x).0,
                    s.cell_at(x).1,
                    s.cell_at(x).2,
                    s.cell_at(x).3,
                    #[trigger] out@[x],
                ),
        decreases total - idx,
    {
        let (b, c, i, j) = s.cell(idx);
        let window = s.window(b, c, i, j);
        let mut acc = lowest;
        let ghost mut partial: Seq<T> = seq![lowest];
        let mut t: usize = 0;
        while t < window.len()
            invariant
                t <= window@.len(),
                window@.len() == s.window_count(),
                input@.len() == s.input_volume(),
                forall|u: int|
                    0 <= u < window@.len() ==> {
                        &&& #[trigger] window@[u] == s.window_at(b as int, c as int, i as int, j as int, u)
                        &&& window@[u] < s.input_volume()
                    },
                forall|acc: T, x: T| larger.requires((acc, x)),
                partial.len() == t + 1,
                partial[0] == lowest,
                partial[t as int] == acc,
                forall|u: int|
                    0 <= u < t ==> larger.ensures(
                        (
                            #[trigger] partial[u],
                            input@[s.window_at(b as int, c as int, i as int, j as int, u)],
                        ),
                        partial[u + 1],
                    ),
            decreases window@.len() - t,
        {
            let p = window[t];
            acc = larger(acc, input[p]);
            t += 1;
            proof {
                partial = partial.push(acc);
            }
        }
        assert(s.is_partial_maxes(
            larger,
            lowest,
            input@,
            b as int,
            c as int,
            i as int,
            j as int,
            partial,
        ));
        out.push(acc);
        idx += 1;
    }
    assert forall|b: int, c: int, i: int, j: int|
        0 <= b < batch && 0 <= c < channels && 0 <= i < h as int / k as int && 0 <= j < w as int
            / k as int implies s.maxes_to(
        larger,
        lowest,
        input@,
        b,
        c,
        i,
        j,
        out@[#[trigger] s.output_index(b, c, i, j)],
    ) by {
        lemma_offset4_bound(batch as int, channels as int, s.h_out(), s.w_out(), b, c, i, j);
        lemma_cell4_of_offset4(channels as int, s.h_out(), s.w_out(), b, c, i, j);
    }
    Ok(out)
}

} // verus!
