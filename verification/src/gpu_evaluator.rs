//! The buffer layout shared with GPU objective shaders.
//!
//! Solutions go to the shader as one flat row-major buffer `solutions[pop_size *
//! solution_length]`, objectives come back as `objectives[pop_size * num_objectives]`, and the
//! shader runs in workgroups of 64 invocations, one per solution.
use vstd::prelude::*;

verus! {

/// The invocations per workgroup that shaders declare.
pub const WORKGROUP_SIZE: u32 = 64;

/// The sizes of one batch dispatch.
#[derive(Clone, Copy, Debug, PartialEq, Eq, Structural)]
pub struct BatchLayout {
    /// Size in bytes of the objectives buffer (4-byte values).
    pub output_bytes: u64,
    /// `Params.solution_length` of the shader.
    pub solution_length: u32,
    /// `Params.num_objectives` of the shader.
    pub num_objectives: u32,
    /// `Params.pop_size` of the shader.
    pub pop_size: u32,
    /// Number of workgroups dispatched.
    pub workgroups: u32,
}

/// The layout of a dispatch over `pop_size` solutions: the output buffer size, the shader
/// parameters (each as `u32`), and enough workgroups of 64 to give every solution an
/// invocation.
pub fn batch_layout(pop_size: usize, solution_length: usize, num_objectives: usize) -> (l: BatchLayout)
    requires
        pop_size * num_objectives * 4 <= usize::MAX,
        pop_size as u32 <= u32::MAX - 63,
    ensures
        l.output_bytes == pop_size * num_objectives * 4,
        l.solution_length == solution_length as u32,
        l.num_objectives == num_objectives as u32,
        l.pop_size == pop_size as u32,
        l.workgroups == (pop_size as u32 + 63) / 64,
{
    assert(pop_size * num_objectives * 4 >= 0) by (nonlinear_arith);
    let bytes = pop_size * num_objectives * 4;
    let pop32 = pop_size as u32;
    BatchLayout {
        output_bytes: bytes as u64,
        solution_length: solution_length as u32,
        num_objectives: num_objectives as u32,
        pop_size: pop32,
        workgroups: (pop32 + 63) / WORKGROUP_SIZE,
    }
}

/// A dispatch of `(n + 63) / 64` workgroups covers `n` invocations, with fewer than one
/// workgroup to spare.
pub proof fn lemma_workgroups_cover(n: u32)
    requires
        n <= u32::MAX - 63,
    ensures
        ((n + 63) / 64) * 64 >= n,
        ((n + 63) / 64) * 64 < n + 64,
{
    assert(((n + 63) / 64) * 64 >= n && ((n + 63) / 64) * 64 < n + 64) by (nonlinear_arith)
        requires
            n <= u32::MAX - 63,
    ;
}

/// The rows of a row-major buffer of width `width`: row `i` is `flat[i * width .. (i + 1) *
/// width]`. A trailing partial row is dropped.
pub open spec fn rows_of<T>(flat: Seq<T>, width: nat) -> Seq<Seq<T>> {
    Seq::new(flat.len() / width, |i: int| flat.subrange(i * width, (i + 1) * width))
}

/// Splits a row-major buffer into rows of `width` values, dropping a trailing partial row.
pub fn chunk_rows<T: Copy>(flat: &[T], width: usize) -> (rows: Vec<Vec<T>>)
    requires
        width > 0,
    ensures
        rows@.len() == flat@.len() / (width as nat),
        forall|i: int| 0 <= i < rows@.len() ==> (#[trigger] rows@[i])@ == rows_of(flat@, width as nat)[i],
{
    let total = flat.len();
    let n_rows = total / width;
    let mut rows: Vec<Vec<T>> = Vec::new();
    let mut r: usize = 0;
    while r < n_rows
        invariant
            width > 0,
            total == flat@.len(),
            total <= usize::MAX,
            n_rows == flat@.len() / (width as nat),
            r <= n_rows,
            rows@.len() == r,
            forall|i: int| 0 <= i < r ==> (#[trigger] rows@[i])@ == rows_of(flat@, width as nat)[i],
        decreases n_rows - r,
    {
        assert((r + 1) * width <= flat@.len()) by (nonlinear_arith)
            requires
                r < n_rows,
                n_rows == flat@.len() / (width as nat),
                width > 0,
        ;
        assert(r * width + width == (r + 1) * width) by (nonlinear_arith);
        let start = r * width;
        let mut row: Vec<T> = Vec::new();
        let mut c: usize = 0;
        while c < width
            invariant
                width > 0,
                start == r * width,
                start + width <= flat@.len(),
                flat@.len() <= usize::MAX,
                c <= width,
                row@ == flat@.subrange(start as int, start + c),
            decreases width - c,
        {
            row.push(flat[start + c]);
            assert(row@ =~= flat@.subrange(start as int, start + c + 1));
            c = c + 1;
        }
        assert(row@ == rows_of(flat@, width as nat)[r as int]);
        rows.push(row);
        r = r + 1;
    }
    rows
}

/// Packs rows into one row-major buffer, row after row.
pub fn flatten_rows<T: Copy>(rows: &[Vec<T>]) -> (flat: Vec<T>)
    ensures
        flat@ == rows@.map_values(|r: Vec<T>| r@).flatten(),
{
    let ghost views = rows@.map_values(|r: Vec<T>| r@);
    let mut flat: Vec<T> = Vec::new();
    let mut r: usize = 0;
    assert(views.take(0) =~= Seq::<Seq<T>>::empty());
    while r < rows.len()
        invariant
            views == rows@.map_values(|r: Vec<T>| r@),
            r <= rows@.len(),
            flat@ == views.take(r as int).flatten(),
        decreases rows.len() - r,
    {
        let row = &rows[r];
        assert(row@ == views[r as int]);
        let ghost start = flat@;
        let mut c: usize = 0;
        while c < row.len()
            invariant
                c <= row@.len(),
                flat@ == start + row@.take(c as int),
            decreases row.len() - c,
        {
            flat.push(row[c]);
            assert(flat@ =~= start + row@.take(c + 1));
            c = c + 1;
        }
        assert(row@.take(row@.len() as int) =~= row@);
        proof {
            assert(views.take(r + 1) =~= views.take(r as int).push(views[r as int]));
            views.take(r as int).lemma_flatten_push(views[r as int]);
        }
        r = r + 1;
    }
    assert(views.take(rows@.len() as int) =~= views);
    flat
}

proof fn lemma_flatten_uniform<T>(rows: Seq<Seq<T>>, width: nat, i: int, c: int)
    requires
        width > 0,
        forall|k: int| 0 <= k < rows.len() ==> (#[trigger] rows[k]).len() == width,
        0 <= i < rows.len(),
        0 <= c < width,
    ensures
        rows.flatten().len() == rows.len() * width,
        rows.flatten()[i * width + c] == rows[i][c],
    decreases rows.len(),
{
    let last = rows.len() - 1;
    let init = rows.drop_last();
    let tail = rows[last];
    assert(rows =~= init.push(tail));
    init.lemma_flatten_push(tail);
    let fi = init.flatten();
    assert(rows.flatten() == fi + tail);
    if init.len() > 0 {
        if i < last {
            lemma_flatten_uniform(init, width, i, c);
        } else {
            lemma_flatten_uniform(init, width, 0, 0);
        }
    } else {
        assert(init =~= Seq::<Seq<T>>::empty());
        assert(fi =~= Seq::<T>::empty());
    }
    assert(fi.len() == init.len() * width);
    assert(rows.len() * width == init.len() * width + width) by (nonlinear_arith)
        requires
            rows.len() == init.len() + 1,
    ;
    if i < last {
        assert(i * width + c < init.len() * width) by (nonlinear_arith)
            requires
                i < init.len(),
                c < width,
                0 <= i,
        ;
        assert((fi + tail)[i * width + c] == fi[i * width + c]);
    } else {
        assert(i * width == init.len() * width);
        assert((fi + tail)[i * width + c] == tail[c]);
    }
}

/// Packing rows of equal width and splitting the buffer again gives back the rows: the
/// input and output layouts agree.
pub proof fn lemma_rows_roundtrip<T>(rows: Seq<Seq<T>>, width: nat)
    requires
        width > 0,
        forall|k: int| 0 <= k < rows.len() ==> (#[trigger] rows[k]).len() == width,
    ensures
        rows_of(rows.flatten(), width) == rows,
{
    let flat = rows.flatten();
    if rows.len() > 0 {
        lemma_flatten_uniform(rows, width, 0, 0);
    } else {
        assert(flat =~= Seq::<T>::empty());
    }
    assert(flat.len() == rows.len() * width);
    assert(flat.len() / width == rows.len()) by (nonlinear_arith)
        requires
            flat.len() == rows.len() * width,
            width > 0,
    ;
    let back = rows_of(flat, width);
    assert forall|i: int| 0 <= i < rows.len() implies #[trigger] back[i] == rows[i] by {
        assert((i + 1) * width == i * width + width) by (nonlinear_arith);
        assert((i + 1) * width <= rows.len() * width) by (nonlinear_arith)
            requires
                i < rows.len(),
        ;
        assert forall|c: int| 0 <= c < width implies back[i][c] == rows[i][c] by {
            lemma_flatten_uniform(rows, width, i, c);
        }
        assert(back[i] =~= rows[i]);
    }
    assert(back =~= rows);
}

} // verus!
