use vstd::prelude::*;
use vstd::arithmetic::div_mod::{
    lemma_div_is_ordered, lemma_div_multiples_vanish, lemma_fundamental_div_mod_converse_div,
    lemma_fundamental_div_mod_converse_mod,
};
use vstd::arithmetic::mul::lemma_mul_inequality;

verus! {

/// First column of job `job` when `width` columns are split into `n_jobs`
/// contiguous ranges: `width * job / n_jobs`.
pub open spec fn job_start(width: int, n_jobs: int, job: int) -> int {
    width * job / n_jobs
}

/// One past the last column of job `job`; the next job starts there.
pub open spec fn job_end(width: int, n_jobs: int, job: int) -> int {
    job_start(width, n_jobs, job + 1)
}

/// Column `x` lies in the range of job `job`.
pub open spec fn job_holds(width: int, n_jobs: int, job: int, x: int) -> bool {
    job_start(width, n_jobs, job) <= x < job_end(width, n_jobs, job)
}

/// Some job holds column `x`.
pub open spec fn column_covered(width: int, n_jobs: int, x: int) -> bool {
    exists|j: int| 0 <= j < n_jobs && #[trigger] job_holds(width, n_jobs, j, x)
}

/// The column range `[start, end)` of job `job` out of `n_jobs`.
pub fn job_columns(width: u32, n_jobs: u32, job: u32) -> (r: (u32, u32))
    requires
        0 < n_jobs,
        job < n_jobs,
    ensures
        r.0 == job_start(width as int, n_jobs as int, job as int),
        r.1 == job_end(width as int, n_jobs as int, job as int),
        r.0 <= r.1 <= width,
{
    proof {
        lemma_job_start_monotone(width as int, n_jobs as int, job as int, job as int + 1);
        lemma_job_start_monotone(width as int, n_jobs as int, job as int + 1, n_jobs as int);
        lemma_job_start_ends(width as int, n_jobs as int);
        lemma_mul_inequality(job as int + 1, n_jobs as int, width as int);
        assert((width as int) * (job as int + 1) <= (width as int) * (n_jobs as int)) by (nonlinear_arith)
            requires
                (job as int + 1) * (width as int) <= (n_jobs as int) * (width as int),
        ;
        assert((width as int) * (job as int) <= (width as int) * (job as int + 1)) by (nonlinear_arith)
            requires
                0 <= width,
        ;
        assert((width as int) * (n_jobs as int) <= 0xffff_ffff * 0xffff_ffff) by (nonlinear_arith)
            requires
                0 <= width <= 0xffff_ffff,
                0 <= n_jobs <= 0xffff_ffff,
        ;
    }
    let w = width as u64;
    let n = n_jobs as u64;
    let j = job as u64;
    let start = w * j / n;
    let end = w * (j + 1) / n;
    (start as u32, end as u32)
}

/// Later jobs never start earlier.
pub proof fn lemma_job_start_monotone(width: int, n_jobs: int, j1: int, j2: int)
    requires
        0 <= width,
        0 < n_jobs,
        0 <= j1 <= j2,
    ensures
        job_start(width, n_jobs, j1) <= job_start(width, n_jobs, j2),
{
    lemma_mul_inequality(j1, j2, width);
    assert(width * j1 <= width * j2) by (nonlinear_arith)
        requires
            j1 * width <= j2 * width,
    ;
    lemma_div_is_ordered(width * j1, width * j2, n_jobs);
}

/// The first job starts at column 0 and the last one ends at `width`.
pub proof fn lemma_job_start_ends(width: int, n_jobs: int)
    requires
        0 <= width,
        0 < n_jobs,
    ensures
        job_start(width, n_jobs, 0) == 0,
        job_start(width, n_jobs, n_jobs) == width,
{
    assert(width * 0 == 0);
    assert(width * n_jobs == n_jobs * width) by (nonlinear_arith);
    lemma_div_multiples_vanish(width, n_jobs);
}

/// Some job at or after `k` holds column `x`.
proof fn lemma_column_found_from(width: int, n_jobs: int, x: int, k: int)
    requires
        0 <= width,
        0 < n_jobs,
        0 <= k < n_jobs,
        job_start(width, n_jobs, k) <= x < width,
    ensures
        exists|j: int| k <= j < n_jobs && #[trigger] job_holds(width, n_jobs, j, x),
    decreases n_jobs - k,
{
    if x < job_end(width, n_jobs, k) {
        assert(job_holds(width, n_jobs, k, x));
    } else {
        lemma_job_start_ends(width, n_jobs);
        if k + 1 == n_jobs {
            assert(false);
        } else {
            lemma_column_found_from(width, n_jobs, x, k + 1);
        }
    }
}

/// The jobs' column ranges partition `[0, width)`: every range lies inside
/// it, and every column belongs to exactly one job, so no column is left out
/// and none is rendered twice.
pub proof fn lemma_jobs_partition_columns(width: int, n_jobs: int)
    requires
        0 <= width,
        0 < n_jobs,
    ensures
        forall|j: int|
            0 <= j < n_jobs ==> 0 <= #[trigger] job_start(width, n_jobs, j) <= job_end(width, n_jobs, j)
                <= width,
        forall|x: int| 0 <= x < width ==> #[trigger] column_covered(width, n_jobs, x),
        forall|x: int, j1: int, j2: int|
            0 <= j1 < n_jobs && 0 <= j2 < n_jobs && #[trigger] job_holds(width, n_jobs, j1, x)
                && #[trigger] job_holds(width, n_jobs, j2, x) ==> j1 == j2,
{
    lemma_job_start_ends(width, n_jobs);
    assert forall|j: int| 0 <= j < n_jobs implies 0 <= #[trigger] job_start(width, n_jobs, j) <= job_end(
        width,
        n_jobs,
        j,
    ) <= width by {
        lemma_job_start_monotone(width, n_jobs, 0, j);
        lemma_job_start_monotone(width, n_jobs, j, j + 1);
        lemma_job_start_monotone(width, n_jobs, j + 1, n_jobs);
    }
    assert forall|x: int| 0 <= x < width implies #[trigger] column_covered(width, n_jobs, x) by {
        lemma_column_found_from(width, n_jobs, x, 0);
    }
    assert forall|x: int, j1: int, j2: int|
        0 <= j1 < n_jobs && 0 <= j2 < n_jobs && #[trigger] job_holds(width, n_jobs, j1, x)
            && #[trigger] job_holds(width, n_jobs, j2, x) implies j1 == j2 by {
        if j1 < j2 {
            lemma_job_start_monotone(width, n_jobs, j1 + 1, j2);
        } else if j2 < j1 {
            lemma_job_start_monotone(width, n_jobs, j2 + 1, j1);
        }
    }
}

/// One rendered column of the image: its index `x` and its pixels, from the
/// bottom row (`y == 0`) up.
pub struct ThreadResult {
    pub x: u32,
    pub color: Vec<[u8; 3]>,
}

/// No two columns carry the same index.
pub open spec fn tags_distinct(cols: Seq<ThreadResult>) -> bool {
    forall|i: int, j: int|
        0 <= i < cols.len() && 0 <= j < cols.len() && i != j ==> #[trigger] cols[i].x != #[trigger] cols[j].x
}

/// Some column carries index `x`.
pub open spec fn has_column(cols: Seq<ThreadResult>, x: int) -> bool {
    exists|i: int| 0 <= i < cols.len() && #[trigger] cols[i].x == x
}

/// A pixel left black because no column reached it.
pub open spec fn black() -> [u8; 3] {
    [0u8, 0u8, 0u8]
}

/// Pixel `(x, y)` as the columns give it: row `y` of the column tagged `x`,
/// or black where no column is tagged `x`.
pub open spec fn pixel_of(cols: Seq<ThreadResult>, x: int, y: int) -> [u8; 3] {
    if has_column(cols, x) {
        let i = choose|i: int| 0 <= i < cols.len() && #[trigger] cols[i].x == x;
        cols[i].color@[y]
    } else {
        black()
    }
}

/// Entry `k` of the row-major image buffer, top row first: row `k / width`
/// of the buffer shows `y == height - 1 - k / width`.
pub open spec fn image_pixel(cols: Seq<ThreadResult>, width: int, height: int, k: int) -> [u8; 3] {
    pixel_of(cols, k % width, height - 1 - k / width)
}

/// With distinct tags, the column that a pixel comes from is the one tagged with its `x`.
proof fn lemma_pixel_of_column(cols: Seq<ThreadResult>, i: int, y: int)
    requires
        tags_distinct(cols),
        0 <= i < cols.len(),
    ensures
        pixel_of(cols, cols[i].x as int, y) == cols[i].color@[y],
{
    let x = cols[i].x as int;
    assert(has_column(cols, x));
    let j = choose|j: int| 0 <= j < cols.len() && #[trigger] cols[j].x == x;
    assert(cols[j].x == cols[i].x);
}

/// A buffer index splits into a row below `height` and a column below `width`.
proof fn lemma_row_in_range(k: int, width: int, height: int)
    requires
        0 <= k < width * height,
        0 <= width,
        0 <= height,
    ensures
        0 <= k / width < height,
        0 <= k % width < width,
{
    assert(width > 0) by (nonlinear_arith)
        requires
            0 <= k < width * height,
            0 <= width,
            0 <= height,
    ;
    vstd::arithmetic::div_mod::lemma_fundamental_div_mod(k, width);
    vstd::arithmetic::div_mod::lemma_div_pos_is_pos(k, width);
    let q = k / width;
    let r = k % width;
    assert(0 <= r < width);
    assert(q < height) by (nonlinear_arith)
        requires
            k == width * q + r,
            0 <= r,
            k < width * height,
            width > 0,
    ;
}

/// Writes the columns into a row-major buffer of `width * height` pixels,
/// top row first; pixels of columns that no result carries stay black.
pub fn assemble_image(width: u32, height: u32, results: &Vec<ThreadResult>) -> (img: Vec<[u8; 3]>)
    requires
        width as int * height as int <= usize::MAX,
        tags_distinct(results@),
        forall|i: int|
            0 <= i < results.len() ==> #[trigger] results[i].x < width && results[i].color.len() == height,
    ensures
        img.len() == width as int * height as int,
        forall|k: int|
            0 <= k < img.len() ==> #[trigger] img[k] == image_pixel(results@, width as int, height as int, k),
{
    let n: usize = width as usize * height as usize;
    let ghost w = width as int;
    let ghost h = height as int;
    let mut img: Vec<[u8; 3]> = Vec::new();
    while img.len() < n
        invariant
            img.len() <= n,
            forall|k: int| 0 <= k < img.len() ==> #[trigger] img[k] == black(),
        decreases n - img.len(),
    {
        img.push([0u8, 0u8, 0u8]);
    }
    let mut c: usize = 0;
    while c < results.len()
        invariant
            n == w * h,
            w == width,
            h == height,
            img.len() == n,
            c <= results.len(),
            tags_distinct(results@),
            forall|i: int|
                0 <= i < results.len() ==> #[trigger] results[i].x < width && results[i].color.len() == height,
            forall|k: int| 0 <= k < n ==> #[trigger] img[k] == image_pixel(results@.take(c as int), w, h, k),
        decreases results.len() - c,
    {
        let col = &results[c];
        let x = col.x;
        let ghost prev = results@.take(c as int);
        let ghost next = results@.take(c as int + 1);
        proof {
            assert(tags_distinct(next));
            assert(next[c as int] == results[c as int]);
            assert forall|k: int| 0 <= k < n implies #[trigger] image_pixel(next, w, h, k) == if k % w
                == x as int {
                results[c as int].color@[h - 1 - k / w]
            } else {
                image_pixel(prev, w, h, k)
            } by {
                if k % w == x as int {
                    lemma_pixel_of_column(next, c as int, h - 1 - k / w);
                } else {
                    let xk = k % w;
                    if has_column(next, xk) {
                        let i = choose|i: int| 0 <= i < next.len() && #[trigger] next[i].x == xk;
                        assert(i < c);
                        assert(prev[i] == next[i]);
                        lemma_pixel_of_column(next, i, h - 1 - k / w);
                        lemma_pixel_of_column(prev, i, h - 1 - k / w);
                    } else {
                        assert forall|i: int| 0 <= i < prev.len() implies #[trigger] prev[i].x != xk by {
                            assert(prev[i] == next[i]);
                        }
                    }
                }
            }
        }
        proof {
            assert forall|k: int| 0 <= k < n implies 0 <= #[trigger] (k / w) < h by {
                lemma_row_in_range(k, w, h);
            }
        }
        let mut y: u32 = 0;
        while y < height
            invariant
                n == w * h,
                w == width,
                h == height,
                img.len() == n,
                y <= height,
                x < width,
                col.color.len() == height,
                *col == results[c as int],
                forall|k: int|
                    0 <= k < n ==> #[trigger] img[k] == if k % w == x as int && k / w >= h - y {
                        col.color@[h - 1 - k / w]
                    } else {
                        image_pixel(prev, w, h, k)
                    },
            decreases height - y,
        {
            let row = height - 1 - y;
            proof {
                assert((row as int) * w + (x as int) < w * h) by (nonlinear_arith)
                    requires
                        0 <= row < h,
                        0 <= x < w,
                ;
            }
            let k = row as usize * width as usize + x as usize;
            proof {
                lemma_fundamental_div_mod_converse_div(k as int, w, row as int, x as int);
                lemma_fundamental_div_mod_converse_mod(k as int, w, row as int, x as int);
            }
            let ghost before = img@;
            img.set(k, col.color[y as usize]);
            proof {
                assert forall|k2: int| 0 <= k2 < n implies #[trigger] img[k2] == if k2 % w == x as int && k2
                    / w >= h - (y + 1) {
                    col.color@[h - 1 - k2 / w]
                } else {
                    image_pixel(prev, w, h, k2)
                } by {
                    if k2 != k {
                        assert(img[k2] == before[k2]);
                        if k2 % w == x as int && k2 / w == row as int {
                            vstd::arithmetic::div_mod::lemma_fundamental_div_mod(k2, w);
                            assert(w * (row as int) == (row as int) * w) by (nonlinear_arith);
                            assert(false);
                        }
                    }
                }
            }
            y = y + 1;
        }
        proof {
            assert forall|k: int| 0 <= k < n implies #[trigger] img[k] == image_pixel(next, w, h, k) by {
                if k % w == x as int {
                    assert(k / w >= 0) by {
                        vstd::arithmetic::div_mod::lemma_div_pos_is_pos(k, w);
                    }
                }
            }
        }
        c = c + 1;
    }
    proof {
        assert(results@.take(results.len() as int) =~= results@);
    }
    img
}

/// The assembled image does not depend on the order in which the columns
/// arrive: any reordering of the same columns gives the same pixels.
pub proof fn lemma_assembly_order_independent(
    a: Seq<ThreadResult>,
    b: Seq<ThreadResult>,
    width: int,
    height: int,
)
    requires
        tags_distinct(a),
        a.to_multiset() == b.to_multiset(),
    ensures
        tags_distinct(b),
        forall|k: int| #[trigger] image_pixel(a, width, height, k) == image_pixel(b, width, height, k),
{
    a.to_multiset_ensures();
    b.to_multiset_ensures();
    assert forall|e: ThreadResult| a.contains(e) <==> b.contains(e) by {
        assert(a.contains(e) <==> a.to_multiset().count(e) > 0);
        assert(b.contains(e) <==> b.to_multiset().count(e) > 0);
    }
    assert(a.len() == b.len()) by {
        assert(a.to_multiset().len() == b.to_multiset().len());
    }
    assert forall|i: int, j: int|
        0 <= i < b.len() && 0 <= j < b.len() && i != j implies #[trigger] b[i].x != #[trigger] b[j].x by {
        if b[i].x == b[j].x {
            assert(b.contains(b[i]));
            assert(b.contains(b[j]));
            let ia = choose|ia: int| 0 <= ia < a.len() && a[ia] == b[i];
            let ja = choose|ja: int| 0 <= ja < a.len() && a[ja] == b[j];
            if ia == ja {
                // b holds the same column twice, so a holds it twice too
                let e = b[i];
                assert(b.remove(i).contains(e)) by {
                    if j < i {
                        assert(b.remove(i)[j] == e);
                    } else {
                        assert(b.remove(i)[j - 1] == e);
                    }
                }
                b.remove(i).to_multiset_ensures();
                a.remove(ia).to_multiset_ensures();
                assert(b.remove(i).to_multiset().count(e) > 0);
                assert(b.to_multiset().count(e) >= 2);
                assert(a.remove(ia).to_multiset().count(e) >= 1);
                assert(a.remove(ia).contains(e));
                let ka = choose|ka: int| 0 <= ka < a.remove(ia).len() && a.remove(ia)[ka] == e;
                if ka < ia {
                    assert(a[ka] == e);
                } else {
                    assert(a[ka + 1] == e);
                }
            }
        }
    }
    assert forall|k: int| #[trigger] image_pixel(a, width, height, k) == image_pixel(b, width, height, k) by {
        let x = k % width;
        let y = height - 1 - k / width;
        if has_column(a, x) {
            let i = choose|i: int| 0 <= i < a.len() && #[trigger] a[i].x == x;
            assert(a.contains(a[i]));
            let j = choose|j: int| 0 <= j < b.len() && b[j] == a[i];
            lemma_pixel_of_column(a, i, y);
            lemma_pixel_of_column(b, j, y);
        } else if has_column(b, x) {
            let j = choose|j: int| 0 <= j < b.len() && #[trigger] b[j].x == x;
            assert(b.contains(b[j]));
            let i = choose|i: int| 0 <= i < a.len() && a[i] == b[j];
            assert(a[i].x == x);
        }
    }
}

} // verus!
