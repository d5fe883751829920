use vstd::prelude::*;

verus! {

/// A rectangular block of pixels, columns `from_x..to_x` and rows
/// `from_y..to_y`, of an image `width` pixels wide and `height` high.
#[derive(Debug, Copy, Clone)]
pub struct RenderTask {
    pub from_x: u64,
    pub from_y: u64,
    pub to_x: u64,
    pub to_y: u64,
    pub width: u64,
    pub height: u64,
}

/// The pixels that a task computed, row by row, and the rays it cast.
pub struct RenderResult<P> {
    pub pixels: Vec<P>,
    pub rays_cast: u64,
}

/// The frame being rendered: one pixel per image position, row-major, and
/// the number of rays cast so far.
pub struct RenderContext<P> {
    pub width: u64,
    pub height: u64,
    pub pixels: Vec<P>,
    pub rays_cast: u64,
}

/// Columns per task when an image `width` wide is cut into `n` column
/// ranges: `width / n` rounded up; with `n == 0`, the whole width.
pub open spec fn chunk_size(width: nat, n: nat) -> nat {
    if n == 0 {
        width
    } else {
        ((width + n - 1) as nat) / n
    }
}

/// Number of column ranges of `chunk` columns (the last one possibly
/// shorter) that make up `width` columns.
pub open spec fn chunk_count(width: nat, chunk: nat) -> nat {
    if chunk == 0 {
        0
    } else {
        ((width + chunk - 1) as nat) / chunk
    }
}

/// The tasks of an image cut into `n` column ranges: task `k` holds columns
/// `k * c .. min((k + 1) * c, width)` of every row, with `c` the chunk size.
pub open spec fn partition(width: u64, height: u64, n: nat) -> Seq<RenderTask> {
    let c = chunk_size(width as nat, n);
    Seq::new(
        chunk_count(width as nat, c),
        |k: int|
            RenderTask {
                from_x: (k * c) as u64,
                from_y: 0,
                to_x: if (k + 1) * c < width {
                    ((k + 1) * c) as u64
                } else {
                    width
                },
                to_y: height,
                width,
                height,
            },
    )
}

/// `k` is the index of a column range exactly when its first column lies
/// inside the image.
proof fn lemma_chunk_count(width: nat, c: nat, k: nat)
    requires
        c > 0,
    ensures
        k < chunk_count(width, c) <==> k * c < width,
{
    let a = (width + c - 1) as nat;
    let q = a / c;
    let r = a % c;
    vstd::arithmetic::div_mod::lemma_fundamental_div_mod(a as int, c as int);
    assert(0 <= r < c);
    if k < q {
        assert(c * (k + 1) <= c * q) by (nonlinear_arith)
            requires
                k + 1 <= q,
                c > 0,
        ;
        assert(k * c < width) by (nonlinear_arith)
            requires
                c * (k + 1) <= c * q,
                a == c * q + r,
                r >= 0,
                a == width + c - 1,
        ;
    } else {
        assert(c * k >= c * q) by (nonlinear_arith)
            requires
                k >= q,
                c > 0,
        ;
        assert(k * c >= width) by (nonlinear_arith)
            requires
                c * k >= c * q,
                a == c * q + r,
                r < c,
                a == width + c - 1,
        ;
    }
}

/// The chunk size is positive whenever the image is.
proof fn lemma_chunk_size_positive(width: nat, n: nat)
    requires
        width > 0,
    ensures
        0 < chunk_size(width, n) <= width,
{
    if n > 0 {
        let a = (width + n - 1) as nat;
        vstd::arithmetic::div_mod::lemma_fundamental_div_mod(a as int, n as int);
        let q = a / n;
        let r = a % n;
        assert(0 < q <= width) by (nonlinear_arith)
            requires
                a == n * q + r,
                0 <= r < n,
                a == width + n - 1,
                width > 0,
                n > 0,
        ;
    }
}

/// Some task of `tasks` holds column `x`.
pub open spec fn column_covered(tasks: Seq<RenderTask>, x: int) -> bool {
    exists|k: int| 0 <= k < tasks.len() && #[trigger] tasks[k].holds_column(x)
}

/// Sum of a sequence of counts.
pub open spec fn total(counts: Seq<u64>) -> int
    decreases counts.len(),
{
    if counts.len() == 0 {
        0
    } else {
        total(counts.drop_last()) + counts.last()
    }
}

/// A sum of counts is never negative.
proof fn lemma_total_nonnegative(counts: Seq<u64>)
    ensures
        total(counts) >= 0,
    decreases counts.len(),
{
    if counts.len() > 0 {
        lemma_total_nonnegative(counts.drop_last());
    }
}

/// `v`, or `u64::MAX` where `v` is larger.
pub open spec fn saturate(v: int) -> u64 {
    if v < u64::MAX {
        v as u64
    } else {
        u64::MAX
    }
}

/// Pixels of a task that come before (`x`, `y`) in row-major order have
/// smaller positions in the task's block than the block's first `done`
/// entries, `done` being the position of (`x`, `y`).
proof fn lemma_local_index_before(t: RenderTask, px: int, py: int, x: int, y: int)
    requires
        t.from_x <= t.to_x,
        t.from_y <= t.to_y,
        t.covers(px, py),
        t.from_x <= x <= t.to_x,
        t.from_y <= y <= t.to_y,
        RenderTask::before(px, py, x, y),
    ensures
        0 <= t.local_index(px, py) < t.local_index(x, y),
{
    let tw = t.to_x - t.from_x;
    let a = py - t.from_y;
    let b = y - t.from_y;
    assert(0 <= a * tw + (px - t.from_x) < b * tw + (x - t.from_x)) by (nonlinear_arith)
        requires
            0 <= a,
            0 <= b,
            0 <= px - t.from_x < tw,
            0 <= x - t.from_x <= tw,
            a < b || (a == b && px < x),
    ;
}

/// The position of the first pixel of the next row follows the position
/// just past the last pixel of a row, and a task's block has `pixel_count`
/// positions.
proof fn lemma_local_index_next_row(t: RenderTask, y: int)
    requires
        t.from_x <= t.to_x,
        t.from_y <= y,
    ensures
        t.local_index(t.to_x as int, y) == t.local_index(t.from_x as int, y + 1),
        t.local_index(t.from_x as int, t.to_y as int) == t.pixel_count(),
{
    let tw = t.to_x - t.from_x;
    assert((y - t.from_y) * tw + tw == (y + 1 - t.from_y) * tw) by (nonlinear_arith);
    assert((t.to_y - t.from_y) * tw == tw * (t.to_y - t.from_y)) by (nonlinear_arith);
}

/// A position inside a task's block is smaller than its pixel count.
proof fn lemma_local_index_inside(t: RenderTask, x: int, y: int)
    requires
        t.covers(x, y),
    ensures
        0 <= t.local_index(x, y) < t.pixel_count(),
{
    let tw = t.to_x - t.from_x;
    let th = t.to_y - t.from_y;
    assert(0 <= (y - t.from_y) * tw + (x - t.from_x) < tw * th) by (nonlinear_arith)
        requires
            0 <= y - t.from_y < th,
            0 <= x - t.from_x < tw,
    ;
}

/// The row-major frame `frame`, `width` pixels wide, with `block`, the
/// pixels of `task`, copied into the task's place.
pub open spec fn merged<P>(frame: Seq<P>, width: int, task: RenderTask, block: Seq<P>) -> Seq<P> {
    Seq::new(
        frame.len(),
        |i: int|
            if task.covers(i % width, i / width) {
                block[task.local_index(i % width, i / width)]
            } else {
                frame[i]
            },
    )
}

/// Merging the blocks of two tasks that share no pixel gives the same frame
/// in either order.
pub proof fn lemma_merges_commute<P>(
    frame: Seq<P>,
    width: int,
    t1: RenderTask,
    b1: Seq<P>,
    t2: RenderTask,
    b2: Seq<P>,
)
    requires
        forall|x: int, y: int| !(#[trigger] t1.covers(x, y) && #[trigger] t2.covers(x, y)),
    ensures
        merged(merged(frame, width, t1, b1), width, t2, b2) == merged(
            merged(frame, width, t2, b2),
            width,
            t1,
            b1,
        ),
{
    assert(merged(merged(frame, width, t1, b1), width, t2, b2) =~= merged(
        merged(frame, width, t2, b2),
        width,
        t1,
        b1,
    ));
}

/// Two distinct tasks of a partition share no pixel, so the frame does not
/// depend on the order in which their blocks are merged.
pub proof fn lemma_partition_merges_commute<P>(
    frame: Seq<P>,
    width: u64,
    height: u64,
    n: nat,
    k1: int,
    b1: Seq<P>,
    k2: int,
    b2: Seq<P>,
)
    requires
        0 <= k1 < partition(width, height, n).len(),
        0 <= k2 < partition(width, height, n).len(),
        k1 != k2,
    ensures
        ({
            let t1 = partition(width, height, n)[k1];
            let t2 = partition(width, height, n)[k2];
            merged(merged(frame, width as int, t1, b1), width as int, t2, b2) == merged(
                merged(frame, width as int, t2, b2),
                width as int,
                t1,
                b1,
            )
        }),
{
    let tasks = partition(width, height, n);
    lemma_partition_covers_columns(width, height, n);
    assert forall|x: int, y: int| !(#[trigger] tasks[k1].covers(x, y) && #[trigger] tasks[k2].covers(x, y)) by {
        if tasks[k1].covers(x, y) && tasks[k2].covers(x, y) {
            assert(tasks[k1].holds_column(x));
            assert(tasks[k2].holds_column(x));
        }
    }
    lemma_merges_commute(frame, width as int, tasks[k1], b1, tasks[k2], b2);
}

/// Whatever the width and the number of tasks asked for, the tasks of the
/// partition cut the image's columns `0..width` into non-empty ranges with no
/// gap and no overlap, and each task spans all rows.
pub proof fn lemma_partition_covers_columns(width: u64, height: u64, n: nat)
    ensures
        forall|k: int|
            0 <= k < partition(width, height, n).len() ==> {
                let t = #[trigger] partition(width, height, n)[k];
                &&& t.wf()
                &&& t.from_x < t.to_x
                &&& t.from_y == 0
                &&& t.to_y == height
                &&& t.width == width
                &&& t.height == height
            },
        forall|x: int| 0 <= x < width ==> #[trigger] column_covered(partition(width, height, n), x),
        forall|k1: int, k2: int, x: int|
            0 <= k1 < partition(width, height, n).len() && 0 <= k2 < partition(
                width,
                height,
                n,
            ).len() && #[trigger] partition(width, height, n)[k1].holds_column(x)
                && #[trigger] partition(width, height, n)[k2].holds_column(x) ==> k1 == k2,
{
    let tasks = partition(width, height, n);
    let c = chunk_size(width as nat, n);
    if width == 0 {
        if n > 0 {
            vstd::arithmetic::div_mod::lemma_basic_div((n - 1) as int, n as int);
        }
        assert(tasks.len() == 0);
        return;
    }
    lemma_chunk_size_positive(width as nat, n);
    assert forall|k: int| 0 <= k < tasks.len() implies {
        let t = #[trigger] tasks[k];
        &&& t.wf()
        &&& t.from_x < t.to_x
        &&& t.from_y == 0
        &&& t.to_y == height
        &&& t.width == width
        &&& t.height == height
    } by {
        lemma_chunk_count(width as nat, c, k as nat);
        assert((k + 1) * c == k * c + c) by (nonlinear_arith);
    }
    assert forall|x: int| 0 <= x < width implies #[trigger] column_covered(tasks, x) by {
        let k = x / c as int;
        vstd::arithmetic::div_mod::lemma_fundamental_div_mod(x, c as int);
        assert(k * c <= x < (k + 1) * c) by (nonlinear_arith)
            requires
                x == c * k + x % (c as int),
                0 <= x % (c as int) < c,
        ;
        assert(k >= 0) by (nonlinear_arith)
            requires
                x >= 0,
                c > 0,
                k == x / c as int,
        ;
        lemma_chunk_count(width as nat, c, k as nat);
        assert(tasks[k].holds_column(x));
    }
    assert forall|k1: int, k2: int, x: int|
        0 <= k1 < tasks.len() && 0 <= k2 < tasks.len() && #[trigger] tasks[k1].holds_column(x)
            && #[trigger] tasks[k2].holds_column(x) implies k1 == k2 by {
        lemma_chunk_count(width as nat, c, k1 as nat);
        lemma_chunk_count(width as nat, c, k2 as nat);
        assert(k1 * c <= x < (k1 + 1) * c);
        assert(k2 * c <= x < (k2 + 1) * c);
        assert((k1 + 1) * c == k1 * c + c) by (nonlinear_arith);
        assert((k2 + 1) * c == k2 * c + c) by (nonlinear_arith);
        vstd::arithmetic::div_mod::lemma_fundamental_div_mod_converse_div(
            x,
            c as int,
            k1,
            x - k1 * c,
        );
        vstd::arithmetic::div_mod::lemma_fundamental_div_mod_converse_div(
            x,
            c as int,
            k2,
            x - k2 * c,
        );
    }
}

impl RenderTask {
    /// Column `x` lies in the task's column range.
    pub open spec fn holds_column(self, x: int) -> bool {
        self.from_x <= x < self.to_x
    }

    /// Columns and rows run forward and stay inside the image.
    pub open spec fn wf(self) -> bool {
        &&& self.from_x <= self.to_x <= self.width
        &&& self.from_y <= self.to_y <= self.height
    }

    /// The task holds the pixel at column `x` and row `y`.
    pub open spec fn covers(self, x: int, y: int) -> bool {
        &&& self.from_x <= x < self.to_x
        &&& self.from_y <= y < self.to_y
    }

    /// Position of pixel (`x`, `y`) in the task's row-major block.
    pub open spec fn local_index(self, x: int, y: int) -> int {
        (y - self.from_y) * (self.to_x - self.from_x) + (x - self.from_x)
    }

    /// Number of pixels the task holds.
    pub open spec fn pixel_count(self) -> int {
        (self.to_x - self.from_x) * (self.to_y - self.from_y)
    }

    /// Pixel (`px`, `py`) comes before pixel (`x`, `y`) in row-major order.
    pub open spec fn before(px: int, py: int, x: int, y: int) -> bool {
        py < y || (py == y && px < x)
    }

    pub fn xrange_width(&self) -> (r: u64)
        requires
            self.from_x <= self.to_x,
        ensures
            r == self.to_x - self.from_x,
    {
        self.to_x - self.from_x
    }

    pub fn yrange_height(&self) -> (r: u64)
        requires
            self.from_y <= self.to_y,
        ensures
            r == self.to_y - self.from_y,
    {
        self.to_y - self.from_y
    }

    pub fn task_pixels_count(&self) -> (r: u64)
        requires
            self.from_x <= self.to_x,
            self.from_y <= self.to_y,
            self.pixel_count() <= u64::MAX,
        ensures
            r == self.pixel_count(),
    {
        self.xrange_width() * self.yrange_height()
    }

    pub fn xrange(&self) -> (r: std::ops::Range<u64>)
        ensures
            r.start == self.from_x,
            r.end == self.to_x,
    {
        self.from_x..self.to_x
    }

    pub fn yrange(&self) -> (r: std::ops::Range<u64>)
        ensures
            r.start == self.from_y,
            r.end == self.to_y,
    {
        self.from_y..self.to_y
    }

    /// Computes the task's pixels row by row, each by a call of
    /// `render_pixel(x, y)`, which returns the rays it cast and the pixel.
    /// The result holds the pixel of (`x`, `y`) at `local_index(x, y)`, and
    /// the sum of the ray counts (saturating at `u64::MAX`).
    pub fn render<P, F: Fn(u64, u64) -> (u64, P)>(&self, render_pixel: F) -> (result: RenderResult<P>)
        requires
            self.from_x <= self.to_x,
            self.from_y <= self.to_y,
            self.pixel_count() <= usize::MAX,
            forall|x: u64, y: u64|
                self.covers(x as int, y as int) ==> #[trigger] render_pixel.requires((x, y)),
        ensures
            result.pixels@.len() == self.pixel_count(),
            exists|counts: Seq<u64>|
                {
                    &&& counts.len() == self.pixel_count()
                    &&& result.rays_cast == saturate(total(counts))
                    &&& forall|x: u64, y: u64|
                        self.covers(x as int, y as int) ==> #[trigger] render_pixel.ensures(
                            (x, y),
                            (
                                counts[self.local_index(x as int, y as int)],
                                result.pixels@[self.local_index(x as int, y as int)],
                            ),
                        )
                },
    {
        let mut pixels: Vec<P> = Vec::new();
        let mut rays_cast: u64 = 0;
        let ghost mut counts: Seq<u64> = Seq::empty();
        let mut y: u64 = self.from_y;
        proof {
            lemma_local_index_next_row(*self, self.from_y as int);
        }
        while y < self.to_y
            invariant
                self.from_x <= self.to_x,
                self.from_y <= y <= self.to_y,
                self.pixel_count() <= usize::MAX,
                forall|x: u64, y: u64|
                    self.covers(x as int, y as int) ==> #[trigger] render_pixel.requires((x, y)),
                pixels@.len() == counts.len(),
                pixels@.len() == self.local_index(self.from_x as int, y as int),
                rays_cast == saturate(total(counts)),
                forall|px: u64, py: u64|
                    self.covers(px as int, py as int) && py < y ==> #[trigger] render_pixel.ensures(
                        (px, py),
                        (
                            counts[self.local_index(px as int, py as int)],
                            pixels@[self.local_index(px as int, py as int)],
                        ),
                    ),
            decreases self.to_y - y,
        {
            let mut x: u64 = self.from_x;
            while x < self.to_x
                invariant
                    self.from_x <= x <= self.to_x,
                    self.from_y <= y < self.to_y,
                    self.pixel_count() <= usize::MAX,
                    forall|x: u64, y: u64|
                        self.covers(x as int, y as int) ==> #[trigger] render_pixel.requires(
                            (x, y),
                        ),
                    pixels@.len() == counts.len(),
                    pixels@.len() == self.local_index(x as int, y as int),
                    rays_cast == saturate(total(counts)),
                    forall|px: u64, py: u64|
                        self.covers(px as int, py as int) && RenderTask::before(
                            px as int,
                            py as int,
                            x as int,
                            y as int,
                        ) ==> #[trigger] render_pixel.ensures(
                            (px, py),
                            (
                                counts[self.local_index(px as int, py as int)],
                                pixels@[self.local_index(px as int, py as int)],
                            ),
                        ),
                decreases self.to_x - x,
            {
                proof {
                    lemma_local_index_inside(*self, x as int, y as int);
                }
                let (rays, pixel) = render_pixel(x, y);
                let ghost old_pixels = pixels@;
                let ghost old_counts = counts;
                pixels.push(pixel);
                rays_cast = rays_cast.saturating_add(rays);
                proof {
                    counts = counts.push(rays);
                    assert(counts.drop_last() =~= old_counts);
                    assert(total(counts) == total(old_counts) + rays);
                    lemma_total_nonnegative(old_counts);
                    assert forall|px: u64, py: u64|
                        self.covers(px as int, py as int) && RenderTask::before(
                            px as int,
                            py as int,
                            (x + 1) as int,
                            y as int,
                        ) implies #[trigger] render_pixel.ensures(
                        (px, py),
                        (
                            counts[self.local_index(px as int, py as int)],
                            pixels@[self.local_index(px as int, py as int)],
                        ),
                    ) by {
                        if px == x && py == y {
                        } else {
                            lemma_local_index_before(*self, px as int, py as int, x as int, y as int);
                            assert(pixels@[self.local_index(px as int, py as int)] == old_pixels[self.local_index(px as int, py as int)]);
                            assert(counts[self.local_index(px as int, py as int)] == old_counts[self.local_index(px as int, py as int)]);
                        }
                    }
                }
                x = x + 1;
            }
            proof {
                lemma_local_index_next_row(*self, y as int);
            }
            y = y + 1;
        }
        proof {
            lemma_local_index_next_row(*self, y as int);
        }
        RenderResult { pixels, rays_cast }
    }
}

/// Distinct image positions have distinct places in a row-major buffer,
/// and every position has a place inside it.
proof fn lemma_pixel_index(width: int, height: int, x1: int, y1: int, x2: int, y2: int)
    requires
        0 <= x1 < width,
        0 <= y1 < height,
        0 <= x2 < width,
        0 <= y2 < height,
    ensures
        0 <= y1 * width + x1 < width * height,
        y1 * width + x1 == y2 * width + x2 ==> x1 == x2 && y1 == y2,
{
    assert(0 <= y1 * width + x1 < width * height) by (nonlinear_arith)
        requires
            0 <= x1 < width,
            0 <= y1 < height,
    ;
    if y1 * width + x1 == y2 * width + x2 {
        vstd::arithmetic::div_mod::lemma_fundamental_div_mod_converse(
            y1 * width + x1,
            width,
            y1,
            x1,
        );
        vstd::arithmetic::div_mod::lemma_fundamental_div_mod_converse(
            y2 * width + x2,
            width,
            y2,
            x2,
        );
    }
}

impl<P> RenderContext<P> {
    /// The buffer holds one pixel per image position.
    pub open spec fn wf(self) -> bool {
        self.pixels@.len() == self.width * self.height
    }

    /// Place of the pixel at column `x`, row `y` in the row-major buffer.
    pub open spec fn pixel_index(self, x: int, y: int) -> int {
        y * self.width + x
    }

    /// The pixel at column `x`, row `y`.
    pub open spec fn pixel_at(self, x: int, y: int) -> P {
        self.pixels@[self.pixel_index(x, y)]
    }

    /// (`x`, `y`) lies inside the image.
    pub open spec fn in_image(self, x: int, y: int) -> bool {
        0 <= x < self.width && 0 <= y < self.height
    }

    /// Replaces the pixel at column `x`, row `y` by `color`.
    pub fn set_pixel(&mut self, x: u64, y: u64, color: P)
        requires
            old(self).wf(),
            x < old(self).width,
            y < old(self).height,
        ensures
            final(self).wf(),
            final(self).width == old(self).width,
            final(self).height == old(self).height,
            final(self).rays_cast == old(self).rays_cast,
            final(self).pixels@ == old(self).pixels@.update(
                old(self).pixel_index(x as int, y as int),
                color,
            ),
            forall|px: int, py: int|
                old(self).in_image(px, py) ==> #[trigger] final(self).pixel_at(px, py) == if px
                    == x && py == y {
                    color
                } else {
                    old(self).pixel_at(px, py)
                },
    {
        proof {
            lemma_pixel_index(self.width as int, self.height as int, x as int, y as int, 0, 0);
        }
        let len = self.pixels.len();
        let idx = (y * self.width + x) as usize;
        self.pixels.set(idx, color);
        proof {
            assert forall|px: int, py: int| old(self).in_image(px, py) implies #[trigger] self.pixel_at(
                px,
                py,
            ) == if px == x && py == y {
                color
            } else {
                old(self).pixel_at(px, py)
            } by {
                lemma_pixel_index(
                    self.width as int,
                    self.height as int,
                    px,
                    py,
                    x as int,
                    y as int,
                );
            }
        }
    }

    /// Splits the image into at most `n` tasks, each a range of whole
    /// columns across all rows, of `width / n` columns rounded up (the last
    /// one narrower if the width runs out); with `n == 0` the whole image is
    /// one task, and an image of width 0 gives no task.
    pub fn get_tasks(&self, n: usize) -> (tasks: Vec<RenderTask>)
        ensures
            tasks@ == partition(self.width, self.height, n as nat),
    {
        let width = self.width;
        let mut tasks: Vec<RenderTask> = Vec::new();
        if width == 0 {
            proof {
                if n > 0 {
                    vstd::arithmetic::div_mod::lemma_basic_div((n - 1) as int, n as int);
                }
            }
            assert(tasks@ =~= partition(self.width, self.height, n as nat));
            return tasks;
        }
        let n64 = n as u64;
        let chunk: u64 = if n64 == 0 {
            width
        } else {
            (width - 1) / n64 + 1
        };
        proof {
            lemma_chunk_size_positive(width as nat, n as nat);
            if n64 > 0 {
                let w = width as int;
                let m = n64 as int;
                vstd::arithmetic::div_mod::lemma_div_plus_one(w - 1, m);
                assert(chunk == chunk_size(width as nat, n as nat));
            }
        }
        let ghost c = chunk as nat;
        let ghost spec_tasks = partition(self.width, self.height, n as nat);
        let mut from_x: u64 = 0;
        let ghost mut k: nat = 0;
        proof {
            lemma_chunk_count(width as nat, c, 0);
        }
        while from_x < width
            invariant
                c == chunk,
                c == chunk_size(width as nat, n as nat),
                0 < c <= width,
                spec_tasks == partition(self.width, self.height, n as nat),
                width == self.width,
                from_x <= width,
                from_x < width ==> from_x == k * c && k < chunk_count(width as nat, c),
                from_x == width ==> k == chunk_count(width as nat, c),
                tasks@ == spec_tasks.subrange(0, k as int),
            decreases width - from_x,
        {
            let to_x: u64 = if width - from_x <= chunk {
                width
            } else {
                from_x + chunk
            };
            let task = RenderTask {
                from_x,
                from_y: 0,
                to_x,
                to_y: self.height,
                width,
                height: self.height,
            };
            proof {
                assert((k + 1) * c == k * c + c) by (nonlinear_arith);
                assert(task == spec_tasks[k as int]);
                lemma_chunk_count(width as nat, c, k + 1);
            }
            tasks.push(task);
            proof {
                assert(tasks@ =~= spec_tasks.subrange(0, k + 1 as int));
                k = k + 1;
            }
            from_x = to_x;
        }
        assert(tasks@ =~= spec_tasks);
        tasks
    }
}

impl<P: Copy> RenderContext<P> {
    /// A frame of `width` by `height` pixels, all `background`, with no ray
    /// cast yet.
    pub fn new(width: u64, height: u64, background: P) -> (ctx: RenderContext<P>)
        requires
            width * height <= usize::MAX,
        ensures
            ctx.wf(),
            ctx.width == width,
            ctx.height == height,
            ctx.rays_cast == 0,
            forall|i: int| 0 <= i < ctx.pixels@.len() ==> ctx.pixels@[i] == background,
    {
        let total_pixels = (width * height) as usize;
        let mut pixels: Vec<P> = Vec::with_capacity(total_pixels);
        let mut i: usize = 0;
        while i < total_pixels
            invariant
                i <= total_pixels,
                pixels@.len() == i,
                forall|j: int| 0 <= j < i ==> pixels@[j] == background,
            decreases total_pixels - i,
        {
            pixels.push(background);
            i += 1;
        }
        RenderContext { width, height, pixels, rays_cast: 0 }
    }

    /// The pixel at column `x`, row `y`.
    pub fn get_pixel(&self, x: u64, y: u64) -> (color: P)
        requires
            self.wf(),
            x < self.width,
            y < self.height,
        ensures
            color == self.pixel_at(x as int, y as int),
    {
        proof {
            lemma_pixel_index(self.width as int, self.height as int, x as int, y as int, 0, 0);
        }
        let len = self.pixels.len();
        let idx = (y * self.width + x) as usize;
        self.pixels[idx]
    }

    /// Copies a task's pixel block into the frame at the task's place and
    /// adds its rays to the count. Pixels outside the task stay as they were.
    pub fn apply_render_result(&mut self, task: &RenderTask, result: &RenderResult<P>)
        requires
            old(self).wf(),
            task.wf(),
            task.width == old(self).width,
            task.height == old(self).height,
            result.pixels@.len() == task.pixel_count(),
            old(self).rays_cast + result.rays_cast <= u64::MAX,
        ensures
            final(self).wf(),
            final(self).width == old(self).width,
            final(self).height == old(self).height,
            final(self).rays_cast == old(self).rays_cast + result.rays_cast,
            final(self).pixels@ == merged(
                old(self).pixels@,
                old(self).width as int,
                *task,
                result.pixels@,
            ),
            forall|x: int, y: int|
                old(self).in_image(x, y) ==> #[trigger] final(self).pixel_at(x, y) == if task.covers(
                    x,
                    y,
                ) {
                    result.pixels@[task.local_index(x, y)]
                } else {
                    old(self).pixel_at(x, y)
                },
    {
        let ghost start = *self;
        let block_len = result.pixels.len();
        let mut idx: usize = 0;
        let mut y: u64 = task.from_y;
        proof {
            lemma_local_index_next_row(*task, task.from_y as int);
        }
        while y < task.to_y
            invariant
                task.wf(),
                task.width == self.width,
                task.height == self.height,
                task.from_y <= y <= task.to_y,
                self.wf(),
                self.width == start.width,
                self.height == start.height,
                self.rays_cast == start.rays_cast,
                result.pixels@.len() == task.pixel_count(),
                block_len == result.pixels@.len(),
                idx == task.local_index(task.from_x as int, y as int),
                forall|px: int, py: int|
                    start.in_image(px, py) ==> #[trigger] self.pixel_at(px, py) == if task.covers(
                        px,
                        py,
                    ) && py < y {
                        result.pixels@[task.local_index(px, py)]
                    } else {
                        start.pixel_at(px, py)
                    },
            decreases task.to_y - y,
        {
            let mut x: u64 = task.from_x;
            while x < task.to_x
                invariant
                    task.wf(),
                    task.width == self.width,
                    task.height == self.height,
                    task.from_y <= y < task.to_y,
                    task.from_x <= x <= task.to_x,
                    self.wf(),
                    self.width == start.width,
                    self.height == start.height,
                    self.rays_cast == start.rays_cast,
                    result.pixels@.len() == task.pixel_count(),
                    block_len == result.pixels@.len(),
                    idx == task.local_index(x as int, y as int),
                    forall|px: int, py: int|
                        start.in_image(px, py) ==> #[trigger] self.pixel_at(px, py) == if task.covers(
                            px,
                            py,
                        ) && RenderTask::before(px, py, x as int, y as int) {
                            result.pixels@[task.local_index(px, py)]
                        } else {
                            start.pixel_at(px, py)
                        },
                decreases task.to_x - x,
            {
                proof {
                    lemma_local_index_inside(*task, x as int, y as int);
                }
                self.set_pixel(x, y, result.pixels[idx]);
                idx = idx + 1;
                x = x + 1;
            }
            proof {
                lemma_local_index_next_row(*task, y as int);
            }
            y = y + 1;
        }
        assert forall|px: int, py: int| start.in_image(px, py) implies #[trigger] self.pixel_at(px, py)
            == if task.covers(px, py) {
            result.pixels@[task.local_index(px, py)]
        } else {
            start.pixel_at(px, py)
        } by {
            assert(task.covers(px, py) ==> py < y);
        }
        let ghost copied = *self;
        self.rays_cast = self.rays_cast + result.rays_cast;
        assert(self.pixels@ == copied.pixels@);
        assert forall|px: int, py: int| start.in_image(px, py) implies #[trigger] self.pixel_at(px, py)
            == copied.pixel_at(px, py) by {}
        proof {
            let w = start.width as int;
            let target = merged(start.pixels@, w, *task, result.pixels@);
            assert forall|i: int| 0 <= i < self.pixels@.len() implies self.pixels@[i] == target[i] by {
                let x = i % w;
                let y = i / w;
                vstd::arithmetic::div_mod::lemma_fundamental_div_mod(i, w);
                assert(0 <= x < w);
                assert(0 <= y < start.height) by (nonlinear_arith)
                    requires
                        i == w * y + x,
                        0 <= x < w,
                        0 <= i < w * start.height,
                ;
                assert(start.pixel_index(x, y) == i) by (nonlinear_arith)
                    requires
                        i == w * y + x,
                        w == start.width,
                ;
                assert(self.pixel_at(x, y) == self.pixels@[i]);
            }
            assert(self.pixels@ =~= target);
        }
    }
}

} // verus!
