//! The greedy chord selector: the canvas, the coverage grid, the score of a
//! candidate chord and the step that commits the best one.
//!
//! Scores are exact integers: the real-valued score of a chord, multiplied by
//! `255 * block * block`. That factor is positive and the same for every
//! chord, so signs and comparisons are those of the real scores.

use crate::raster::{chord_pixel, chord_steps, pixel_at, steps};
use vstd::arithmetic::div_mod::{
    lemma_div_pos_is_pos, lemma_fundamental_div_mod, lemma_mod_bound, lemma_mod_pos_bound,
    lemma_multiply_divide_lt,
};
use vstd::prelude::*;

verus! {

/// Largest canvas side, block side and pin coordinate that is accepted.
pub const MAX_DIM: u32 = 65535;

/// Largest line budget that is accepted.
pub const MAX_LINES: usize = 0xFFFF_FFFF;

/// Why a run could not be set up.
#[derive(Debug, Clone, Copy, PartialEq, Eq)]
pub enum ArtError {
    /// Fewer than two pins, or a block size of zero.
    InvalidConfig,
    /// The image does not have one intensity per canvas pixel.
    ImageMismatch,
    /// A dimension, a pin coordinate or the line budget is above its limit.
    TooLarge,
}

/// What one step of the walk did.
#[derive(Debug, Clone, Copy, PartialEq, Eq)]
pub enum StepOutcome {
    /// A chord to this pin was committed; the walk goes on from there.
    Committed(usize),
    /// No candidate from the current pin improves the picture; the caller
    /// chooses where to go on.
    Stalled,
    /// The line budget is used up.
    Done,
}

/// `a / b`, rounded up.
pub open spec fn ceil_div(a: int, b: int) -> int {
    (a + b - 1) / b
}

/// The state of a run as plain mathematics.
pub struct ArtModel {
    /// Canvas width in pixels.
    pub width: int,
    /// Canvas height in pixels.
    pub height: int,
    /// Side of a grid cell in pixels.
    pub block: int,
    /// Line budget.
    pub max_lines: int,
    /// Whether a commit deposits ink only for pixels that were still blank.
    pub blank_only: bool,
    /// Target intensity per canvas pixel, row by row; 0 is darkest.
    pub target: Seq<u8>,
    /// The pins.
    pub pins: Seq<(u32, u32)>,
    /// The committed chords, in the order of their selection.
    pub lines: Seq<(usize, usize)>,
    /// Per canvas pixel, row by row: whether a committed chord covers it.
    pub painted: Seq<bool>,
    /// Ink per grid cell, row by row.
    pub blocks: Seq<int>,
}

impl ArtModel {
    /// Number of grid columns.
    pub open spec fn grid_w(self) -> int {
        ceil_div(self.width, self.block)
    }

    /// Number of grid rows.
    pub open spec fn grid_h(self) -> int {
        ceil_div(self.height, self.block)
    }

    /// Number of grid cells.
    pub open spec fn cells(self) -> int {
        self.grid_w() * self.grid_h()
    }

    pub open spec fn in_canvas(self, p: (int, int)) -> bool {
        0 <= p.0 < self.width && 0 <= p.1 < self.height
    }

    /// Place of a canvas pixel in `target` and `painted`.
    pub open spec fn pixel_index(self, p: (int, int)) -> int {
        p.1 * self.width + p.0
    }

    /// Place in `blocks` of the cell that holds a canvas pixel.
    pub open spec fn cell_of(self, p: (int, int)) -> int {
        (p.1 / self.block) * self.grid_w() + p.0 / self.block
    }

    /// The pixel that stands for cell `c` in the target: its top left one.
    pub open spec fn cell_origin(self, c: int) -> (int, int) {
        ((c % self.grid_w()) * self.block, (c / self.grid_w()) * self.block)
    }

    /// The `i`-th pixel of the chord between pins `a` and `b`.
    pub open spec fn chord(self, a: int, b: int, i: int) -> (int, int) {
        chord_pixel(self.pins[a], self.pins[b], i)
    }

    /// Number of pixels of the chord between pins `a` and `b`.
    pub open spec fn chord_len(self, a: int, b: int) -> int {
        chord_steps(self.pins[a], self.pins[b]) + 1
    }

    /// Whether the `i`-th pixel of a chord counts: it lies on the canvas and,
    /// if only blank pixels are wanted, no committed chord covers it yet.
    pub open spec fn lands(self, a: int, b: int, i: int, blank_only: bool) -> bool {
        let p = self.chord(a, b, i);
        self.in_canvas(p) && (blank_only ==> !self.painted[self.pixel_index(p)])
    }

    /// Whether the `j`-th pixel of a chord is a still blank canvas pixel in
    /// cell `c`.
    pub open spec fn hits_cell(self, a: int, b: int, j: int, c: int) -> bool {
        self.lands(a, b, j, true) && self.cell_of(self.chord(a, b, j)) == c
    }

    /// `base` with one unit of ink added, for each of the first `k` pixels of
    /// the chord that counts, to the cell that holds it.
    pub open spec fn deposit(self, base: Seq<int>, a: int, b: int, k: int, blank_only: bool) -> Seq<
        int,
    >
        decreases k,
    {
        if k <= 0 {
            base
        } else {
            let prev = self.deposit(base, a, b, k - 1, blank_only);
            if self.lands(a, b, k - 1, blank_only) {
                let c = self.cell_of(self.chord(a, b, k - 1));
                prev.update(c, prev[c] + 1)
            } else {
                prev
            }
        }
    }

    /// How many of the first `k` pixels of the chord count.
    pub open spec fn hits(self, a: int, b: int, k: int, blank_only: bool) -> int
        decreases k,
    {
        if k <= 0 {
            0
        } else {
            self.hits(a, b, k - 1, blank_only) + if self.lands(a, b, k - 1, blank_only) {
                1int
            } else {
                0int
            }
        }
    }

    /// `painted` after the first `k` pixels of the chord were drawn.
    pub open spec fn paint(self, a: int, b: int, k: int) -> Seq<bool>
        decreases k,
    {
        if k <= 0 {
            self.painted
        } else {
            let prev = self.paint(a, b, k - 1);
            let p = self.chord(a, b, k - 1);
            if self.in_canvas(p) {
                prev.update(self.pixel_index(p), true)
            } else {
                prev
            }
        }
    }

    /// A grid without ink.
    pub open spec fn zero_grid(self) -> Seq<int> {
        Seq::new(self.cells() as nat, |c: int| 0int)
    }

    /// Per cell, the number of still blank canvas pixels that the chord
    /// between pins `a` and `b` would cover there.
    pub open spec fn tally(self, a: int, b: int) -> Seq<int> {
        self.deposit(self.zero_grid(), a, b, self.chord_len(a, b), true)
    }

    /// What `cnt` new pixels in cell `c` take off the squared error, times
    /// `255 * block * block`:
    /// `cnt * (2 * target - (2 * ink + cnt) / area)` with `target = 1 -
    /// intensity / 255`.
    pub open spec fn contribution(self, c: int, cnt: int) -> int {
        let darkness = 255 - self.target[self.pixel_index(self.cell_origin(c))] as int;
        cnt * (2 * darkness * (self.block * self.block) - 255 * (2 * self.blocks[c] + cnt))
    }

    /// Sum of the contributions of the first `k` cells under the tally `t`.
    pub open spec fn score_sum(self, t: Seq<int>, k: int) -> int
        decreases k,
    {
        if k <= 0 {
            0
        } else {
            self.score_sum(t, k - 1) + self.contribution(k - 1, t[k - 1])
        }
    }

    /// The score of the chord between pins `a` and `b`: the sum of its
    /// contributions over all cells, or `None` where it covers no blank pixel.
    pub open spec fn score(self, a: int, b: int) -> Option<int> {
        if self.hits(a, b, self.chord_len(a, b), true) == 0 {
            None
        } else {
            Some(self.score_sum(self.tally(a, b), self.cells()))
        }
    }

    /// Whether the `i`-th committed chord joins pins `a` and `b`, in either
    /// direction.
    pub open spec fn joins(self, i: int, a: int, b: int) -> bool {
        (self.lines[i].0 == a && self.lines[i].1 == b) || (self.lines[i].0 == b && self.lines[i].1
            == a)
    }

    /// Whether a committed chord joins pins `a` and `b`.
    pub open spec fn edge_drawn(self, a: int, b: int) -> bool {
        exists|i: int| 0 <= i < self.lines.len() && self.joins(i, a, b)
    }

    /// Whether pin `p` may end the next chord from pin `cur`.
    pub open spec fn candidate(self, cur: int, p: int) -> bool {
        p != cur && !self.edge_drawn(cur, p)
    }

    /// The best candidate among the pins below `k`, with its score: the one
    /// of highest score, and of these the one of lowest index. Candidates
    /// without a score never win.
    pub open spec fn best(self, cur: int, k: int) -> Option<(int, int)>
        decreases k,
    {
        if k <= 0 {
            None
        } else {
            let prev = self.best(cur, k - 1);
            if self.candidate(cur, k - 1) {
                match self.score(cur, k - 1) {
                    Some(s) => if prev is None || s > prev.unwrap().1 {
                        Some((k - 1, s))
                    } else {
                        prev
                    },
                    None => prev,
                }
            } else {
                prev
            }
        }
    }

    /// The pin that the next chord from `cur` goes to, if one is committed:
    /// the budget is not used up and the best candidate has a positive score.
    pub open spec fn winner(self, cur: int) -> Option<int> {
        if self.lines.len() >= self.max_lines {
            None
        } else {
            match self.best(cur, self.pins.len() as int) {
                Some(w) => if w.1 > 0 {
                    Some(w.0)
                } else {
                    None
                },
                None => None,
            }
        }
    }

    /// The state after the chord from `cur` to `end` was committed.
    pub open spec fn commit(self, cur: int, end: int) -> ArtModel {
        ArtModel {
            lines: self.lines.push((cur as usize, end as usize)),
            blocks: self.deposit(self.blocks, cur, end, self.chord_len(cur, end), self.blank_only),
            painted: self.paint(cur, end, self.chord_len(cur, end)),
            ..self
        }
    }

    /// The state after one step from pin `cur`.
    pub open spec fn step(self, cur: int) -> ArtModel {
        match self.winner(cur) {
            Some(end) => self.commit(cur, end),
            None => self,
        }
    }

    /// The pin to go on from after one step from pin `cur`: `cur` itself
    /// where nothing was committed.
    pub open spec fn next_pin(self, cur: int) -> int {
        match self.winner(cur) {
            Some(end) => end,
            None => cur,
        }
    }

    /// Where the walk goes on after a stall at pin `cur`: `stride` pins
    /// further round the circle of `n` pins.
    pub open spec fn hop(cur: int, stride: int, n: int) -> int {
        let s = stride % n;
        if cur + s < n {
            cur + s
        } else {
            cur + s - n
        }
    }

    /// The state and the current pin after `k` steps of a walk that starts
    /// at pin `cur` and hops by `stride` whenever a step commits nothing.
    pub open spec fn walk(self, cur: int, stride: int, k: nat) -> (ArtModel, int)
        decreases k,
    {
        if k == 0 {
            (self, cur)
        } else {
            let before = self.walk(cur, stride, (k - 1) as nat);
            let next = before.0.next_pin(before.1);
            (
                before.0.step(before.1),
                if next == before.1 {
                    Self::hop(before.1, stride, self.pins.len() as int)
                } else {
                    next
                },
            )
        }
    }

    /// The same state under another line budget.
    pub open spec fn with_budget(self, max_lines: int) -> ArtModel {
        ArtModel { max_lines, ..self }
    }

    /// The state is consistent and within the limits; among other things,
    /// no two committed chords join the same pair of pins, and the budget
    /// is kept.
    pub open spec fn wf(self) -> bool {
        &&& 0 < self.block <= MAX_DIM
        &&& 0 <= self.width <= MAX_DIM
        &&& 0 <= self.height <= MAX_DIM
        &&& 0 <= self.max_lines <= MAX_LINES
        &&& self.target.len() == self.width * self.height
        &&& self.painted.len() == self.width * self.height
        &&& self.blocks.len() == self.cells()
        &&& 2 <= self.pins.len() <= usize::MAX
        &&& pins_fit(self.pins)
        &&& self.lines.len() <= self.max_lines
        &&& forall|c: int|
            0 <= c < self.blocks.len() ==> 0 <= #[trigger] self.blocks[c] <= self.lines.len()
                * 65536
        &&& forall|i: int|
            0 <= i < self.lines.len() ==> (#[trigger] self.lines[i]).0 < self.pins.len()
                && self.lines[i].1 < self.pins.len() && self.lines[i].0 != self.lines[i].1
        &&& forall|i: int, j: int|
            0 <= i < j < self.lines.len() ==> !(#[trigger] self.joins(
                i,
                self.lines[j].0 as int,
                self.lines[j].1 as int,
            ))
    }
}

proof fn lemma_ceil_div(w: int, b: int)
    requires
        0 <= w,
        0 < b,
    ensures
        b * (ceil_div(w, b) - 1) < w <= b * ceil_div(w, b),
        0 <= ceil_div(w, b) <= w,
{
    let g = ceil_div(w, b);
    lemma_fundamental_div_mod(w + b - 1, b);
    lemma_mod_pos_bound(w + b - 1, b);
    assert(b * (g - 1) == b * g - b) by (nonlinear_arith);
    assert(0 <= g <= w) by (nonlinear_arith)
        requires
            b * (g - 1) < w,
            w <= b * g,
            b >= 1,
            w >= 0,
    ;
}

proof fn lemma_cell_col(x: int, w: int, b: int)
    requires
        0 <= x < w,
        0 < b,
    ensures
        0 <= x / b < ceil_div(w, b),
{
    let g = ceil_div(w, b);
    let q = x / b;
    lemma_ceil_div(w, b);
    lemma_fundamental_div_mod(x, b);
    lemma_mod_pos_bound(x, b);
    lemma_div_pos_is_pos(x, b);
    assert(q < g) by (nonlinear_arith)
        requires
            b * q < b * g,
            b > 0,
    ;
}

proof fn lemma_origin(col: int, w: int, b: int)
    requires
        0 <= col < ceil_div(w, b),
        0 <= w,
        0 < b,
    ensures
        0 <= col * b < w,
{
    let g = ceil_div(w, b);
    lemma_ceil_div(w, b);
    assert(0 <= col * b <= b * (g - 1)) by (nonlinear_arith)
        requires
            0 <= col <= g - 1,
            b > 0,
    ;
}

proof fn lemma_index(r: int, c: int, w: int, h: int)
    requires
        0 <= r < h,
        0 <= c < w,
    ensures
        0 <= r * w + c < w * h,
{
    assert(0 <= r * w && r * w + w <= w * h) by (nonlinear_arith)
        requires
            0 <= r,
            r + 1 <= h,
            0 <= w,
    ;
}

proof fn lemma_cell_split(c: int, gw: int, gh: int)
    requires
        0 <= c < gw * gh,
        0 <= gw,
    ensures
        0 < gw,
        0 <= c % gw < gw,
        0 <= c / gw < gh,
{
    assert(gw != 0) by (nonlinear_arith)
        requires
            0 < gw * gh,
    ;
    lemma_mod_pos_bound(c, gw);
    lemma_multiply_divide_lt(c, gw, gh);
    lemma_div_pos_is_pos(c, gw);
}

proof fn lemma_grid_size(gw: int, gh: int)
    requires
        0 <= gw <= 65535,
        0 <= gh <= 65535,
    ensures
        0 <= gw * gh <= 4294836225,
{
    assert(0 <= gw * gh <= 65535 * 65535) by (nonlinear_arith)
        requires
            0 <= gw <= 65535,
            0 <= gh <= 65535,
    ;
}

/// Counters as mathematical integers.
pub open spec fn ints(v: Seq<u64>) -> Seq<int> {
    Seq::new(v.len(), |i: int| v[i] as int)
}

proof fn lemma_cell_in_range(m: ArtModel, p: (int, int))
    requires
        m.wf(),
        m.in_canvas(p),
    ensures
        0 <= m.cell_of(p) < m.cells(),
        0 <= m.pixel_index(p) < m.width * m.height,
{
    lemma_ceil_div(m.width, m.block);
    lemma_ceil_div(m.height, m.block);
    lemma_cell_col(p.0, m.width, m.block);
    lemma_cell_col(p.1, m.height, m.block);
    lemma_index(p.1 / m.block, p.0 / m.block, m.grid_w(), m.grid_h());
    lemma_index(p.1, p.0, m.width, m.height);
}

proof fn lemma_no_pixels_no_gain(m: ArtModel, c: int)
    ensures
        m.contribution(c, 0) == 0,
{
    let darkness = 255 - m.target[m.pixel_index(m.cell_origin(c))] as int;
    let per = 2 * darkness * (m.block * m.block) - 255 * (2 * m.blocks[c] + 0);
    assert(0 * per == 0) by (nonlinear_arith);
}

proof fn lemma_sum_without(m: ArtModel, t: Seq<int>, c: int, k: int)
    requires
        0 <= c < t.len(),
        0 <= k <= t.len(),
    ensures
        m.score_sum(t.update(c, 0), k) == m.score_sum(t, k) - if c < k {
            m.contribution(c, t[c])
        } else {
            0
        },
    decreases k,
{
    if k > 0 {
        lemma_sum_without(m, t, c, k - 1);
        if c == k - 1 {
            lemma_no_pixels_no_gain(m, c);
        }
    }
}

proof fn lemma_sum_of_nothing(m: ArtModel, t: Seq<int>, k: int)
    requires
        0 <= k <= t.len(),
        forall|c: int| 0 <= c < k ==> t[c] == 0,
    ensures
        m.score_sum(t, k) == 0,
    decreases k,
{
    if k > 0 {
        lemma_sum_of_nothing(m, t, k - 1);
        lemma_no_pixels_no_gain(m, k - 1);
    }
}

proof fn lemma_touched_cell(m: ArtModel, base: Seq<int>, a: int, b: int, k: int, c: int)
    requires
        m.wf(),
        base.len() == m.cells(),
        0 <= k,
        0 <= c < base.len(),
        m.deposit(base, a, b, k, true)[c] != base[c],
    ensures
        exists|j: int| 0 <= j < k && #[trigger] m.hits_cell(a, b, j, c),
    decreases k,
{
    if k > 0 {
        lemma_deposit_bounds(m, base, a, b, k - 1, true);
        let prev = m.deposit(base, a, b, k - 1, true);
        if prev[c] != base[c] {
            lemma_touched_cell(m, base, a, b, k - 1, c);
            let j = choose|j: int| 0 <= j < k - 1 && m.hits_cell(a, b, j, c);
            assert(0 <= j < k && m.hits_cell(a, b, j, c));
        } else {
            if m.in_canvas(m.chord(a, b, k - 1)) {
                lemma_cell_in_range(m, m.chord(a, b, k - 1));
            }
            assert(m.hits_cell(a, b, k - 1, c));
        }
    }
}

fn zeros(n: usize) -> (v: Vec<u64>)
    ensures
        v@.len() == n,
        forall|i: int| 0 <= i < n ==> v@[i] == 0,
{
    let mut v: Vec<u64> = Vec::new();
    let mut i: usize = 0;
    while i < n
        invariant
            i <= n,
            v@.len() == i,
            forall|j: int| 0 <= j < i ==> v@[j] == 0,
        decreases n - i,
    {
        v.push(0);
        i += 1;
    }
    v
}

fn blanks(n: usize) -> (v: Vec<bool>)
    ensures
        v@.len() == n,
        forall|i: int| 0 <= i < n ==> !v@[i],
{
    let mut v: Vec<bool> = Vec::new();
    let mut i: usize = 0;
    while i < n
        invariant
            i <= n,
            v@.len() == i,
            forall|j: int| 0 <= j < i ==> !v@[j],
        decreases n - i,
    {
        v.push(false);
        i += 1;
    }
    v
}

/// Whether every coordinate of every pin is within the limit.
pub open spec fn pins_fit(pins: Seq<(u32, u32)>) -> bool {
    forall|i: int| 0 <= i < pins.len() ==> (#[trigger] pins[i]).0 <= MAX_DIM && pins[i].1 <= MAX_DIM
}

fn check_pins(pins: &Vec<(u32, u32)>) -> (r: bool)
    ensures
        r == pins_fit(pins@),
{
    let mut i: usize = 0;
    while i < pins.len()
        invariant
            i <= pins@.len(),
            forall|j: int| 0 <= j < i ==> (#[trigger] pins@[j]).0 <= MAX_DIM && pins@[j].1 <= MAX_DIM,
        decreases pins@.len() - i,
    {
        if pins[i].0 > MAX_DIM || pins[i].1 > MAX_DIM {
            return false;
        }
        i += 1;
    }
    true
}

/// Fewer than two pins, or a block size of zero.
pub open spec fn invalid_config(block: u32, pins: Seq<(u32, u32)>) -> bool {
    pins.len() < 2 || block == 0
}

/// A dimension, a pin coordinate or the line budget is above its limit.
pub open spec fn too_large(
    width: u32,
    height: u32,
    block: u32,
    pins: Seq<(u32, u32)>,
    max_lines: usize,
) -> bool {
    width > MAX_DIM || height > MAX_DIM || block > MAX_DIM || max_lines > MAX_LINES || !pins_fit(
        pins,
    )
}

/// The state a run starts in: nothing committed, no ink, a blank canvas.
pub open spec fn initial(
    image: Seq<u8>,
    width: u32,
    height: u32,
    block: u32,
    pins: Seq<(u32, u32)>,
    max_lines: usize,
    blank_only: bool,
) -> ArtModel {
    ArtModel {
        width: width as int,
        height: height as int,
        block: block as int,
        max_lines: max_lines as int,
        blank_only,
        target: image,
        pins,
        lines: Seq::empty(),
        painted: Seq::new((width * height) as nat, |i: int| false),
        blocks: Seq::new(
            (ceil_div(width as int, block as int) * ceil_div(height as int, block as int)) as nat,
            |c: int| 0int,
        ),
    }
}

/// A run: the target, the pins, the canvas, the coverage grid and the chords
/// committed so far.
pub struct StringArt {
    /// Target intensity per canvas pixel, row by row; 0 is darkest.
    pub input_image: Vec<u8>,
    /// Side of a grid cell in pixels.
    pub block: u32,
    /// Number of pins.
    pub pin_nums: usize,
    /// Line budget.
    pub max_lines: usize,
    /// Canvas width in pixels.
    pub width: u32,
    /// Canvas height in pixels.
    pub height: u32,
    /// Per canvas pixel, row by row: whether a committed chord covers it.
    pub pin_image: Vec<bool>,
    /// The committed chords, in the order of their selection.
    pub lines: Vec<(usize, usize)>,
    /// The pins.
    pub pins: Vec<(u32, u32)>,
    /// Whether a commit deposits ink only for pixels that were still blank.
    pub commit_blank_only: bool,
    /// Number of grid columns.
    pub grid_w: u32,
    /// Number of grid rows.
    pub grid_h: u32,
    /// Ink per grid cell, row by row.
    pub blocks: Vec<u64>,
}

impl View for StringArt {
    type V = ArtModel;

    open spec fn view(&self) -> ArtModel {
        ArtModel {
            width: self.width as int,
            height: self.height as int,
            block: self.block as int,
            max_lines: self.max_lines as int,
            blank_only: self.commit_blank_only,
            target: self.input_image@,
            pins: self.pins@,
            lines: self.lines@,
            painted: self.pin_image@,
            blocks: Seq::new(self.blocks@.len(), |c: int| self.blocks@[c] as int),
        }
    }
}

impl StringArt {
    /// The state is consistent, and the stored counts are those of the model.
    pub open spec fn wf(&self) -> bool {
        &&& self@.wf()
        &&& self.pin_nums == self.pins@.len()
        &&& self.grid_w == self@.grid_w()
        &&& self.grid_h == self@.grid_h()
    }

    /// Sets up a run on a target image of `width * height` intensities.
    ///
    /// Fails with `InvalidConfig` for fewer than two pins or a block size of
    /// zero; otherwise with `TooLarge` where a limit is exceeded; otherwise
    /// with `ImageMismatch` where the image has another size.
    pub fn from_image(
        input_image: Vec<u8>,
        width: u32,
        height: u32,
        block: u32,
        pins: Vec<(u32, u32)>,
        max_lines: usize,
        commit_blank_only: bool,
    ) -> (r: Result<StringArt, ArtError>)
        ensures
            invalid_config(block, pins@) ==> r == Err::<StringArt, ArtError>(
                ArtError::InvalidConfig,
            ),
            !invalid_config(block, pins@) && too_large(width, height, block, pins@, max_lines)
                ==> r == Err::<StringArt, ArtError>(ArtError::TooLarge),
            !invalid_config(block, pins@) && !too_large(width, height, block, pins@, max_lines)
                && input_image@.len() != width * height ==> r == Err::<StringArt, ArtError>(
                ArtError::ImageMismatch,
            ),
            !invalid_config(block, pins@) && !too_large(width, height, block, pins@, max_lines)
                && input_image@.len() == width * height ==> r is Ok && r.unwrap().wf()
                && r.unwrap()@ == initial(
                input_image@,
                width,
                height,
                block,
                pins@,
                max_lines,
                commit_blank_only,
            ),
    {
        if pins.len() < 2 || block == 0 {
            return Err(ArtError::InvalidConfig);
        }
        if width > MAX_DIM || height > MAX_DIM || block > MAX_DIM || max_lines > MAX_LINES
            || !check_pins(&pins) {
            return Err(ArtError::TooLarge);
        }
        proof {
            lemma_grid_size(width as int, height as int);
        }
        let area: usize = (width as usize) * (height as usize);
        if input_image.len() != area {
            return Err(ArtError::ImageMismatch);
        }
        proof {
            lemma_ceil_div(width as int, block as int);
            lemma_ceil_div(height as int, block as int);
            lemma_grid_size(
                ceil_div(width as int, block as int),
                ceil_div(height as int, block as int),
            );
        }
        let grid_w: u32 = (width + block - 1) / block;
        let grid_h: u32 = (height + block - 1) / block;
        let cells: usize = (grid_w as usize) * (grid_h as usize);
        let pin_nums: usize = pins.len();
        let st = StringArt {
            input_image,
            block,
            pin_nums,
            max_lines,
            width,
            height,
            pin_image: blanks(area),
            lines: Vec::new(),
            pins,
            commit_blank_only,
            grid_w,
            grid_h,
            blocks: zeros(cells),
        };
        proof {
            let m = initial(
                st.input_image@,
                width,
                height,
                block,
                st.pins@,
                max_lines,
                commit_blank_only,
            );
            assert(st@.painted =~= m.painted);
            assert(st@.blocks =~= m.blocks);
            assert(st@.lines =~= m.lines);
            assert(st@ == m);
        }
        Ok(st)
    }

    /// What the pixel arithmetic needs: the limits and the stored counts.
    pub open spec fn geometry(&self) -> bool {
        &&& 0 < self.block <= MAX_DIM
        &&& self.width <= MAX_DIM
        &&& self.height <= MAX_DIM
        &&& self.grid_w == self@.grid_w()
        &&& self.grid_h == self@.grid_h()
        &&& self.pin_nums == self.pins@.len()
        &&& pins_fit(self.pins@)
    }

    /// Where the `i`-th pixel of a chord lies: its place on the canvas and
    /// the place of its cell in the grid, or `None` off the canvas.
    fn locate(&self, start: usize, end: usize, i: u32) -> (r: Option<(usize, usize)>)
        requires
            self.geometry(),
            start < self.pin_nums,
            end < self.pin_nums,
            i <= chord_steps(self.pins@[start as int], self.pins@[end as int]),
        ensures
            r is Some == self@.in_canvas(self@.chord(start as int, end as int, i as int)),
            r is Some ==> {
                let p = self@.chord(start as int, end as int, i as int);
                &&& r.unwrap().0 == self@.pixel_index(p)
                &&& r.unwrap().1 == self@.cell_of(p)
                &&& r.unwrap().0 < self.width * self.height
                &&& r.unwrap().1 < self@.cells()
            },
    {
        let p = pixel_at(self.pins[start], self.pins[end], i);
        if p.0 >= self.width || p.1 >= self.height {
            return None;
        }
        let x: u32 = p.0;
        let y: u32 = p.1;
        proof {
            let w = self.width as int;
            let h = self.height as int;
            let b = self.block as int;
            lemma_index(y as int, x as int, w, h);
            lemma_grid_size(w, h);
            lemma_ceil_div(w, b);
            lemma_ceil_div(h, b);
            lemma_cell_col(x as int, w, b);
            lemma_cell_col(y as int, h, b);
            lemma_index(y as int / b, x as int / b, ceil_div(w, b), ceil_div(h, b));
            lemma_grid_size(ceil_div(w, b), ceil_div(h, b));
        }
        let idx: usize = (y as usize) * (self.width as usize) + (x as usize);
        let c: usize = ((y / self.block) as usize) * (self.grid_w as usize) + ((x
            / self.block) as usize);
        Some((idx, c))
    }

    /// The contribution of `cnt` new pixels in cell `c`.
    fn cell_gain(&self, c: usize, cnt: u64) -> (r: i128)
        requires
            self.wf(),
            c < self@.cells(),
            cnt <= 65536,
        ensures
            r == self@.contribution(c as int, cnt as int),
            -18889465931478580854784 <= r <= 18889465931478580854784,
    {
        proof {
            let w = self.width as int;
            let h = self.height as int;
            let b = self.block as int;
            let gw = ceil_div(w, b);
            let gh = ceil_div(h, b);
            lemma_ceil_div(w, b);
            lemma_ceil_div(h, b);
            lemma_grid_size(gw, gh);
            lemma_grid_size(w, h);
            lemma_cell_split(c as int, gw, gh);
            lemma_origin(c as int % gw, w, b);
            lemma_origin(c as int / gw, h, b);
            lemma_index((c as int / gw) * b, (c as int % gw) * b, w, h);
        }
        let col: u32 = (c % (self.grid_w as usize)) as u32;
        let row: u32 = (c / (self.grid_w as usize)) as u32;
        let ox: u32 = col * self.block;
        let oy: u32 = row * self.block;
        let idx: usize = (oy as usize) * (self.width as usize) + (ox as usize);
        let darkness: i128 = 255 - (self.input_image[idx] as i128);
        let side: i128 = self.block as i128;
        assert(0 <= side * side <= 4294836225) by (nonlinear_arith)
            requires
                0 < side <= 65535,
        ;
        let area: i128 = side * side;
        let ink: i128 = self.blocks[c] as i128;
        assert(ink == self@.blocks[c as int]);
        let k: i128 = cnt as i128;
        assert(0 <= 2 * darkness * area <= 2190366474750) by (nonlinear_arith)
            requires
                0 <= darkness <= 255,
                0 <= area <= 4294836225,
        ;
        let gain: i128 = 2 * darkness * area;
        let cost: i128 = 255 * (2 * ink + k);
        let per: i128 = gain - cost;
        assert(-18889465931478580854784 <= k * per <= 18889465931478580854784)
            by (nonlinear_arith)
            requires
                0 <= k <= 65536,
                -288230376151711744 <= per <= 288230376151711744,
        ;
        k * per
    }

    /// The score of a chord, computed on a grid of counters that is all zero
    /// before and after.
    fn score_in(&self, start: usize, end: usize, scratch: &mut Vec<u64>) -> (r: Option<i128>)
        requires
            self.wf(),
            start < self.pin_nums,
            end < self.pin_nums,
            old(scratch)@.len() == self@.cells(),
            forall|c: int| 0 <= c < old(scratch)@.len() ==> old(scratch)@[c] == 0,
        ensures
            final(scratch)@.len() == self@.cells(),
            forall|c: int| 0 <= c < final(scratch)@.len() ==> final(scratch)@[c] == 0,
            match r {
                Some(s) => self@.score(start as int, end as int) == Some(s as int),
                None => self@.score(start as int, end as int) is None,
            },
    {
        let n: u32 = steps(self.pins[start], self.pins[end]);
        let cells: usize = scratch.len();
        let mut total: u64 = 0;
        let mut i: u32 = 0;
        let ghost m = self@;
        let ghost a = start as int;
        let ghost b = end as int;
        let ghost zero = self@.zero_grid();
        while i <= n
            invariant
                self.wf(),
                m == self@,
                start < self.pin_nums,
                end < self.pin_nums,
                a == start,
                b == end,
                n == chord_steps(self.pins@[a], self.pins@[b]),
                n <= 65535,
                i <= n + 1,
                cells == m.cells(),
                zero == m.zero_grid(),
                scratch@.len() == cells,
                m.deposit(zero, a, b, i as int, true).len() == cells,
                forall|c: int|
                    0 <= c < cells ==> (#[trigger] scratch@[c]) as int == m.deposit(
                        zero,
                        a,
                        b,
                        i as int,
                        true,
                    )[c],
                forall|c: int| 0 <= c < cells ==> 0 <= #[trigger] scratch@[c] <= i,
                total == m.hits(a, b, i as int, true),
                total <= i,
            decreases n + 1 - i,
        {
            match self.locate(start, end, i) {
                Some(at) => {
                    if !self.pin_image[at.0] {
                        let v: u64 = scratch[at.1];
                        scratch.set(at.1, v + 1);
                        total = total + 1;
                    }
                },
                None => {},
            }
            i = i + 1;
        }
        let ghost t = m.tally(a, b);
        proof {
            assert(ints(scratch@) =~= t);
            assert forall|c: int| 0 <= c < cells && scratch@[c] != 0 implies exists|x: int|
                0 <= x < n + 1 && #[trigger] m.hits_cell(a, b, x, c) by {
                lemma_touched_cell(m, zero, a, b, n + 1, c);
            }
        }
        let mut sum: i128 = 0;
        let mut j: u32 = 0;
        while j <= n
            invariant
                self.wf(),
                m == self@,
                start < self.pin_nums,
                end < self.pin_nums,
                a == start,
                b == end,
                n == chord_steps(self.pins@[a], self.pins@[b]),
                n <= 65535,
                j <= n + 1,
                cells == m.cells(),
                scratch@.len() == cells,
                t.len() == cells,
                forall|c: int| 0 <= c < cells ==> 0 <= #[trigger] scratch@[c] <= 65536,
                forall|c: int|
                    0 <= c < cells && scratch@[c] != 0 ==> exists|x: int|
                        j <= x < n + 1 && #[trigger] m.hits_cell(a, b, x, c),
                sum + m.score_sum(ints(scratch@), cells as int) == m.score_sum(t, cells as int),
                -(j * 18889465931478580854784) <= sum <= j * 18889465931478580854784,
            decreases n + 1 - j,
        {
            let ghost before = scratch@;
            match self.locate(start, end, j) {
                Some(at) => {
                    if !self.pin_image[at.0] {
                        let cnt: u64 = scratch[at.1];
                        if cnt != 0 {
                            let part: i128 = self.cell_gain(at.1, cnt);
                            proof {
                                lemma_sum_without(m, ints(before), at.1 as int, cells as int);
                                assert(ints(before.update(at.1 as int, 0)) =~= ints(before).update(
                                    at.1 as int,
                                    0,
                                ));
                            }
                            scratch.set(at.1, 0);
                            sum = sum + part;
                        }
                    }
                },
                None => {},
            }
            proof {
                assert forall|c: int| 0 <= c < cells && scratch@[c] != 0 implies exists|x: int|
                    j + 1 <= x < n + 1 && #[trigger] m.hits_cell(a, b, x, c) by {
                    assert(before[c] != 0);
                    let x = choose|x: int| j <= x < n + 1 && m.hits_cell(a, b, x, c);
                    assert(x != j);
                    assert(j + 1 <= x < n + 1 && m.hits_cell(a, b, x, c));
                }
            }
            j = j + 1;
        }
        proof {
            assert forall|c: int| 0 <= c < cells implies scratch@[c] == 0 by {
                if scratch@[c] != 0 {
                    let x = choose|x: int| j <= x < n + 1 && m.hits_cell(a, b, x, c);
                    assert(false);
                }
            }
            lemma_sum_of_nothing(m, ints(scratch@), cells as int);
        }
        if total == 0 {
            None
        } else {
            Some(sum)
        }
    }

    /// The score of the chord between two pins, times `255 * block * block`;
    /// `None` where the chord covers no blank pixel, so that it never wins.
    pub fn get_line_score(&self, start: usize, end: usize) -> (r: Option<i128>)
        requires
            self.wf(),
            start < self.pin_nums,
            end < self.pin_nums,
        ensures
            match r {
                Some(s) => self@.score(start as int, end as int) == Some(s as int),
                None => self@.score(start as int, end as int) is None,
            },
    {
        let mut scratch: Vec<u64> = zeros(self.blocks.len());
        self.score_in(start, end, &mut scratch)
    }

    /// Whether a committed chord joins pins `a` and `b`, in either direction.
    pub fn edge_drawn(&self, a: usize, b: usize) -> (r: bool)
        ensures
            r == self@.edge_drawn(a as int, b as int),
    {
        let mut i: usize = 0;
        while i < self.lines.len()
            invariant
                i <= self.lines@.len(),
                forall|j: int| 0 <= j < i ==> !self@.joins(j, a as int, b as int),
            decreases self.lines@.len() - i,
        {
            let e: (usize, usize) = self.lines[i];
            if (e.0 == a && e.1 == b) || (e.0 == b && e.1 == a) {
                assert(self@.joins(i as int, a as int, b as int));
                return true;
            }
            i += 1;
        }
        false
    }

    /// The best end pin for a chord from `current_pin`, with its score: the
    /// candidate of highest score, and of several the one of lowest index.
    pub fn best_candidate(&self, current_pin: usize) -> (r: Option<(usize, i128)>)
        requires
            self.wf(),
            current_pin < self.pin_nums,
        ensures
            match r {
                Some(w) => self@.best(current_pin as int, self.pin_nums as int) == Some(
                    (w.0 as int, w.1 as int),
                ),
                None => self@.best(current_pin as int, self.pin_nums as int) is None,
            },
    {
        let mut found: Option<(usize, i128)> = None;
        let mut scratch: Vec<u64> = zeros(self.blocks.len());
        let mut p: usize = 0;
        while p < self.pin_nums
            invariant
                self.wf(),
                current_pin < self.pin_nums,
                p <= self.pin_nums,
                scratch@.len() == self@.cells(),
                forall|c: int| 0 <= c < scratch@.len() ==> scratch@[c] == 0,
                match found {
                    Some(w) => self@.best(current_pin as int, p as int) == Some(
                        (w.0 as int, w.1 as int),
                    ),
                    None => self@.best(current_pin as int, p as int) is None,
                },
            decreases self.pin_nums - p,
        {
            if p != current_pin && !self.edge_drawn(current_pin, p) {
                match self.score_in(current_pin, p, &mut scratch) {
                    Some(s) => {
                        let better: bool = match found {
                            Some(w) => s > w.1,
                            None => true,
                        };
                        if better {
                            found = Some((p, s));
                        }
                    },
                    None => {},
                }
            }
            p += 1;
        }
        found
    }

    /// Commits the chord from `start` to `end`: deposits its ink in the
    /// grid, draws it on the canvas and appends it to the log.
    fn commit(&mut self, start: usize, end: usize)
        requires
            old(self).wf(),
            start < old(self).pin_nums,
            end < old(self).pin_nums,
            old(self)@.candidate(start as int, end as int),
            old(self).lines@.len() < old(self).max_lines,
        ensures
            final(self).wf(),
            final(self)@ == old(self)@.commit(start as int, end as int),
    {
        let ghost m0 = self@;
        let ghost a = start as int;
        let ghost b = end as int;
        let n: u32 = steps(self.pins[start], self.pins[end]);
        let flag: bool = self.commit_blank_only;
        let mut i: u32 = 0;
        while i <= n
            invariant
                m0.wf(),
                self.geometry(),
                start < self.pin_nums,
                end < self.pin_nums,
                a == start,
                b == end,
                flag == m0.blank_only,
                self@.width == m0.width,
                self@.height == m0.height,
                self@.block == m0.block,
                self@.max_lines == m0.max_lines,
                self@.blank_only == m0.blank_only,
                self@.target == m0.target,
                self@.pins == m0.pins,
                self@.lines == m0.lines,
                self@.painted == m0.painted,
                n == chord_steps(m0.pins[a], m0.pins[b]),
                n <= 65535,
                i <= n + 1,
                self.blocks@.len() == m0.blocks.len(),
                m0.deposit(m0.blocks, a, b, i as int, flag).len() == m0.blocks.len(),
                forall|c: int|
                    0 <= c < self.blocks@.len() ==> (#[trigger] self.blocks@[c]) as int
                        == m0.deposit(m0.blocks, a, b, i as int, flag)[c],
                forall|c: int|
                    0 <= c < self.blocks@.len() ==> (#[trigger] self.blocks@[c]) as int
                        <= m0.blocks[c] + i,
            decreases n + 1 - i,
        {
            match self.locate(start, end, i) {
                Some(at) => {
                    if !flag || !self.pin_image[at.0] {
                        let v: u64 = self.blocks[at.1];
                        assert(0 <= m0.blocks[at.1 as int] <= m0.lines.len() * 65536);
                        self.blocks.set(at.1, v + 1);
                    }
                },
                None => {},
            }
            i = i + 1;
        }
        let mut j: u32 = 0;
        while j <= n
            invariant
                m0.wf(),
                self.geometry(),
                start < self.pin_nums,
                end < self.pin_nums,
                a == start,
                b == end,
                self@.width == m0.width,
                self@.height == m0.height,
                self@.block == m0.block,
                self@.max_lines == m0.max_lines,
                self@.blank_only == m0.blank_only,
                self@.target == m0.target,
                self@.pins == m0.pins,
                self@.lines == m0.lines,
                self@.blocks == m0.deposit(m0.blocks, a, b, n + 1, m0.blank_only),
                n == chord_steps(m0.pins[a], m0.pins[b]),
                n <= 65535,
                j <= n + 1,
                self.blocks@.len() == m0.blocks.len(),
                forall|c: int|
                    0 <= c < self.blocks@.len() ==> (#[trigger] self.blocks@[c]) as int
                        <= m0.blocks[c] + n + 1,
                self.pin_image@.len() == m0.painted.len(),
                self.pin_image@ == m0.paint(a, b, j as int),
            decreases n + 1 - j,
        {
            match self.locate(start, end, j) {
                Some(at) => {
                    self.pin_image.set(at.0, true);
                },
                None => {},
            }
            j = j + 1;
        }
        self.lines.push((start, end));
        proof {
            let m1 = self@;
            assert(m1.lines =~= m0.lines.push((start, end)));
            assert forall|x: int, y: int| 0 <= x < y < m1.lines.len() implies !(
            #[trigger] m1.joins(x, m1.lines[y].0 as int, m1.lines[y].1 as int)) by {
                if y == m0.lines.len() {
                    assert(!m0.joins(x, a, b));
                } else {
                    assert(!m0.joins(x, m0.lines[y].0 as int, m0.lines[y].1 as int));
                }
            }
            assert forall|c: int| 0 <= c < m1.blocks.len() implies 0 <= #[trigger] m1.blocks[c]
                <= m1.lines.len() * 65536 by {
                assert(m1.blocks[c] == self.blocks@[c] as int);
                assert(0 <= m0.blocks[c] <= m0.lines.len() * 65536);
            }
            assert(m1 == m0.commit(a, b));
        }
    }

    /// One step of the greedy walk from `current_pin`.
    ///
    /// Where the budget is not used up and the best candidate has a positive
    /// score, its chord is committed and its end pin returned. Otherwise
    /// nothing changes and `current_pin` comes back: the walk has stalled at
    /// this pin, or the run is done.
    pub fn update_one_line(&mut self, current_pin: usize) -> (next: usize)
        requires
            old(self).wf(),
            current_pin < old(self).pin_nums,
        ensures
            final(self).wf(),
            final(self)@ == old(self)@.step(current_pin as int),
            next == old(self)@.next_pin(current_pin as int),
            next < final(self).pin_nums,
            final(self).lines@.len() <= final(self).max_lines,
            next == current_pin ==> final(self)@ == old(self)@,
            next != current_pin ==> {
                &&& final(self).lines@ == old(self).lines@.push((current_pin, next))
                &&& old(self)@.score(current_pin as int, next as int) is Some
                &&& old(self)@.score(current_pin as int, next as int).unwrap() > 0
                &&& !old(self)@.edge_drawn(current_pin as int, next as int)
            },
    {
        if self.lines.len() >= self.max_lines {
            return current_pin;
        }
        proof {
            lemma_best_is_maximal(self@, current_pin as int, self.pin_nums as int);
        }
        match self.best_candidate(current_pin) {
            Some(w) => {
                if w.1 > 0 {
                    self.commit(current_pin, w.0);
                    w.0
                } else {
                    current_pin
                }
            },
            None => current_pin,
        }
    }

    /// One step of the greedy walk from `current_pin`, with a report of what
    /// it did. The state changes exactly as under `update_one_line`.
    pub fn advance(&mut self, current_pin: usize) -> (r: StepOutcome)
        requires
            old(self).wf(),
            current_pin < old(self).pin_nums,
        ensures
            final(self).wf(),
            final(self)@ == old(self)@.step(current_pin as int),
            match r {
                StepOutcome::Committed(end) => old(self)@.winner(current_pin as int) == Some(
                    end as int,
                ),
                StepOutcome::Stalled => old(self)@.winner(current_pin as int) is None && old(
                    self,
                )@.lines.len() < old(self)@.max_lines,
                StepOutcome::Done => old(self)@.lines.len() >= old(self)@.max_lines,
            },
    {
        if self.lines.len() >= self.max_lines {
            return StepOutcome::Done;
        }
        let next: usize = self.update_one_line(current_pin);
        proof {
            lemma_best_is_maximal(old(self)@, current_pin as int, old(self).pin_nums as int);
        }
        if next == current_pin {
            StepOutcome::Stalled
        } else {
            StepOutcome::Committed(next)
        }
    }

    /// Walks for `iterations` steps from pin `start`; whenever a step commits
    /// nothing, the walk goes on `stride` pins further. Returns the pin the
    /// walk has reached.
    pub fn run(&mut self, start: usize, stride: usize, iterations: usize) -> (reached: usize)
        requires
            old(self).wf(),
            start < old(self).pin_nums,
        ensures
            final(self).wf(),
            final(self)@ == old(self)@.walk(start as int, stride as int, iterations as nat).0,
            reached == old(self)@.walk(start as int, stride as int, iterations as nat).1,
            reached < final(self).pin_nums,
    {
        let ghost m0 = self@;
        let n: usize = self.pin_nums;
        let s: usize = stride % n;
        let mut current: usize = start;
        let mut i: usize = 0;
        while i < iterations
            invariant
                self.wf(),
                m0.wf(),
                n == self.pin_nums,
                n == m0.pins.len(),
                s == stride % n,
                current < n,
                i <= iterations,
                self@ == m0.walk(start as int, stride as int, i as nat).0,
                current == m0.walk(start as int, stride as int, i as nat).1,
            decreases iterations - i,
        {
            let ghost before = self@;
            let next: usize = self.update_one_line(current);
            proof {
                lemma_step_keeps_pins(before, current as int);
            }
            if next == current {
                current = if s >= n - current {
                    current - (n - s)
                } else {
                    current + s
                };
            } else {
                current = next;
            }
            i = i + 1;
        }
        current
    }

    /// Number of chords committed so far.
    pub fn lines_drawn(&self) -> (n: usize)
        ensures
            n == self@.lines.len(),
    {
        self.lines.len()
    }

    /// Whether the line budget is used up.
    pub fn is_done(&self) -> (r: bool)
        ensures
            r == (self@.lines.len() >= self@.max_lines),
    {
        self.lines.len() >= self.max_lines
    }
}

/// The best candidate is a candidate below `k` with that score; no candidate
/// below `k` scores higher, and none before it scores as high.
pub proof fn lemma_best_is_maximal(m: ArtModel, cur: int, k: int)
    requires
        0 <= k,
    ensures
        match m.best(cur, k) {
            Some(w) => {
                &&& 0 <= w.0 < k
                &&& m.candidate(cur, w.0)
                &&& m.score(cur, w.0) == Some(w.1)
                &&& forall|q: int|
                    0 <= q < k && m.candidate(cur, q) && m.score(cur, q) is Some ==> {
                        &&& (#[trigger] m.score(cur, q)).unwrap() <= w.1
                        &&& (q < w.0 ==> m.score(cur, q).unwrap() < w.1)
                    }
            },
            None => forall|q: int|
                0 <= q < k && m.candidate(cur, q) ==> #[trigger] m.score(cur, q) is None,
        },
    decreases k,
{
    if k > 0 {
        lemma_best_is_maximal(m, cur, k - 1);
    }
}

/// A committed chord has a positive score, joins two different pins that no
/// earlier chord joins, and is the best candidate from its start pin.
pub proof fn lemma_commit_only_improves(m: ArtModel, cur: int)
    requires
        m.winner(cur) is Some,
    ensures
        m.score(cur, m.next_pin(cur)) is Some,
        m.score(cur, m.next_pin(cur)).unwrap() > 0,
        m.next_pin(cur) != cur,
        !m.edge_drawn(cur, m.next_pin(cur)),
        m.lines.len() < m.max_lines,
        m.step(cur).lines == m.lines.push((cur as usize, m.next_pin(cur) as usize)),
{
    lemma_best_is_maximal(m, cur, m.pins.len() as int);
}

/// Where no chord is committed, the state stays as it is: the budget is used
/// up, or no candidate from this pin has a positive score.
pub proof fn lemma_stall_changes_nothing(m: ArtModel, cur: int)
    requires
        m.winner(cur) is None,
    ensures
        m.step(cur) == m,
        m.next_pin(cur) == cur,
        m.lines.len() < m.max_lines ==> forall|q: int|
            0 <= q < m.pins.len() && m.candidate(cur, q) && m.score(cur, q) is Some ==> (
            #[trigger] m.score(cur, q)).unwrap() <= 0,
{
    lemma_best_is_maximal(m, cur, m.pins.len() as int);
}

/// No pair of pins is joined twice, in either direction, and the log never
/// grows beyond the budget.
pub proof fn lemma_no_duplicate_edges(m: ArtModel, i: int, j: int)
    requires
        m.wf(),
        0 <= i < j < m.lines.len(),
    ensures
        m.lines[i] != m.lines[j],
        m.lines[i] != (m.lines[j].1, m.lines[j].0),
        m.lines[i].0 != m.lines[i].1,
        m.lines.len() <= m.max_lines,
{
    assert(!m.joins(i, m.lines[j].0 as int, m.lines[j].1 as int));
}

/// A step changes neither the pins nor the target, the sizes or the budget.
pub proof fn lemma_step_keeps_pins(m: ArtModel, cur: int)
    ensures
        m.step(cur).pins == m.pins,
        m.step(cur).target == m.target,
        m.step(cur).max_lines == m.max_lines,
        m.step(cur).width == m.width,
        m.step(cur).height == m.height,
        m.step(cur).block == m.block,
{
}

/// Depositing the first `k` pixels of a chord keeps the size of the grid,
/// lowers no counter and raises none by more than `k`.
pub proof fn lemma_deposit_bounds(
    m: ArtModel,
    base: Seq<int>,
    a: int,
    b: int,
    k: int,
    blank_only: bool,
)
    requires
        m.wf(),
        base.len() == m.cells(),
        0 <= k,
    ensures
        m.deposit(base, a, b, k, blank_only).len() == base.len(),
        forall|c: int|
            0 <= c < base.len() ==> base[c] <= #[trigger] m.deposit(base, a, b, k, blank_only)[c]
                <= base[c] + k,
    decreases k,
{
    if k > 0 {
        lemma_deposit_bounds(m, base, a, b, k - 1, blank_only);
        let p = m.chord(a, b, k - 1);
        if m.in_canvas(p) {
            lemma_ceil_div(m.width, m.block);
            lemma_ceil_div(m.height, m.block);
            lemma_cell_col(p.0, m.width, m.block);
            lemma_cell_col(p.1, m.height, m.block);
            lemma_index(p.1 / m.block, p.0 / m.block, m.grid_w(), m.grid_h());
        }
    }
}

/// Drawing the first `k` pixels of a chord keeps the size of the canvas and
/// leaves every painted pixel painted.
pub proof fn lemma_paint_keeps(m: ArtModel, a: int, b: int, k: int)
    requires
        m.wf(),
        0 <= k,
    ensures
        m.paint(a, b, k).len() == m.painted.len(),
        forall|x: int|
            0 <= x < m.painted.len() && m.painted[x] ==> #[trigger] m.paint(a, b, k)[x],
    decreases k,
{
    if k > 0 {
        lemma_paint_keeps(m, a, b, k - 1);
        let p = m.chord(a, b, k - 1);
        if m.in_canvas(p) {
            lemma_index(p.1, p.0, m.width, m.height);
        }
    }
}

/// A step keeps the state consistent: afterwards, too, no pair of pins is
/// joined twice and the log is within the budget. The log is the old one, or
/// the old one with one chord more; no counter of the grid decreases.
pub proof fn lemma_step_preserves_wf(m: ArtModel, cur: int)
    requires
        m.wf(),
        0 <= cur < m.pins.len(),
    ensures
        m.step(cur).wf(),
        0 <= m.next_pin(cur) < m.pins.len(),
        m.step(cur).lines == m.lines || m.step(cur).lines == m.lines.push(
            (cur as usize, m.next_pin(cur) as usize),
        ),
        m.step(cur).blocks.len() == m.blocks.len(),
        forall|c: int| 0 <= c < m.blocks.len() ==> m.blocks[c] <= #[trigger] m.step(cur).blocks[c],
{
    lemma_best_is_maximal(m, cur, m.pins.len() as int);
    if m.winner(cur) is Some {
        let end = m.winner(cur).unwrap();
        let m1 = m.commit(cur, end);
        let len = m.chord_len(cur, end);
        assert(m.pins[cur].0 <= MAX_DIM && m.pins[end].0 <= MAX_DIM);
        assert(1 <= len <= 65536);
        lemma_deposit_bounds(m, m.blocks, cur, end, len, m.blank_only);
        lemma_paint_keeps(m, cur, end, len);
        assert forall|x: int, y: int| 0 <= x < y < m1.lines.len() implies !(#[trigger] m1.joins(
            x,
            m1.lines[y].0 as int,
            m1.lines[y].1 as int,
        )) by {
            if y == m.lines.len() {
                assert(!m.joins(x, cur, end));
            } else {
                assert(!m.joins(x, m.lines[y].0 as int, m.lines[y].1 as int));
            }
        }
        assert forall|c: int| 0 <= c < m1.blocks.len() implies 0 <= #[trigger] m1.blocks[c]
            <= m1.lines.len() * 65536 by {
            assert(0 <= m.blocks[c] <= m.lines.len() * 65536);
        }
    }
}

/// Every state of a walk is consistent: at no point of a run is a pair of
/// pins joined twice, and the log never has more chords than the budget
/// allows.
pub proof fn lemma_walk_preserves_wf(m: ArtModel, cur: int, stride: int, k: nat)
    requires
        m.wf(),
        0 <= cur < m.pins.len(),
    ensures
        m.walk(cur, stride, k).0.wf(),
        m.walk(cur, stride, k).0.pins == m.pins,
        m.walk(cur, stride, k).0.max_lines == m.max_lines,
        0 <= m.walk(cur, stride, k).1 < m.pins.len(),
        m.walk(cur, stride, k).0.lines.len() <= m.max_lines,
    decreases k,
{
    if k > 0 {
        lemma_walk_preserves_wf(m, cur, stride, (k - 1) as nat);
        let before = m.walk(cur, stride, (k - 1) as nat);
        lemma_step_preserves_wf(before.0, before.1);
        lemma_step_keeps_pins(before.0, before.1);
        let n = m.pins.len() as int;
        lemma_mod_bound(stride, n);
    }
}

/// A walk is a function of the state it starts in, the start pin and the
/// stride: two runs from equal states give the same log, the same grid and
/// the same canvas, in whatever order or on however many threads the
/// candidates of a step were scored.
pub proof fn lemma_walk_deterministic(
    m1: ArtModel,
    m2: ArtModel,
    cur: int,
    stride: int,
    k: nat,
)
    requires
        m1 == m2,
    ensures
        m1.step(cur) == m2.step(cur),
        m1.next_pin(cur) == m2.next_pin(cur),
        m1.walk(cur, stride, k) == m2.walk(cur, stride, k),
        m1.walk(cur, stride, k).0.lines == m2.walk(cur, stride, k).0.lines,
{
}

proof fn lemma_budget_deposit(
    m: ArtModel,
    x: int,
    base: Seq<int>,
    a: int,
    b: int,
    k: int,
    blank_only: bool,
)
    ensures
        m.with_budget(x).deposit(base, a, b, k, blank_only) == m.deposit(
            base,
            a,
            b,
            k,
            blank_only,
        ),
        m.with_budget(x).hits(a, b, k, blank_only) == m.hits(a, b, k, blank_only),
        m.with_budget(x).paint(a, b, k) == m.paint(a, b, k),
    decreases k,
{
    if k > 0 {
        lemma_budget_deposit(m, x, base, a, b, k - 1, blank_only);
    }
}

proof fn lemma_budget_score_sum(m: ArtModel, x: int, t: Seq<int>, k: int)
    ensures
        m.with_budget(x).score_sum(t, k) == m.score_sum(t, k),
    decreases k,
{
    if k > 0 {
        lemma_budget_score_sum(m, x, t, k - 1);
    }
}

proof fn lemma_budget_score(m: ArtModel, x: int, a: int, b: int)
    ensures
        m.with_budget(x).score(a, b) == m.score(a, b),
        m.with_budget(x).edge_drawn(a, b) == m.edge_drawn(a, b),
{
    let m2 = m.with_budget(x);
    lemma_budget_deposit(m, x, m.zero_grid(), a, b, m.chord_len(a, b), true);
    lemma_budget_score_sum(m, x, m.tally(a, b), m.cells());
    if m.edge_drawn(a, b) {
        let i = choose|i: int| 0 <= i < m.lines.len() && m.joins(i, a, b);
        assert(m2.joins(i, a, b));
    }
    if m2.edge_drawn(a, b) {
        let i = choose|i: int| 0 <= i < m2.lines.len() && m2.joins(i, a, b);
        assert(m.joins(i, a, b));
    }
}

proof fn lemma_budget_best(m: ArtModel, x: int, cur: int, k: int)
    ensures
        m.with_budget(x).best(cur, k) == m.best(cur, k),
    decreases k,
{
    if k > 0 {
        lemma_budget_best(m, x, cur, k - 1);
        lemma_budget_score(m, x, cur, k - 1);
    }
}

/// The budget decides only whether a step may commit, never which chord:
/// while both budgets leave room, a step does the same under either.
pub proof fn lemma_budget_only_stops(m: ArtModel, x: int, cur: int)
    requires
        m.lines.len() < m.max_lines,
        m.lines.len() < x,
    ensures
        m.with_budget(x).step(cur) == m.step(cur).with_budget(x),
        m.with_budget(x).next_pin(cur) == m.next_pin(cur),
{
    lemma_budget_best(m, x, cur, m.pins.len() as int);
    if m.winner(cur) is Some {
        let end = m.winner(cur).unwrap();
        lemma_budget_deposit(m, x, m.blocks, cur, end, m.chord_len(cur, end), m.blank_only);
    }
}

/// With one line more in the budget, the same walk gives a log that starts
/// with the log of the smaller budget.
pub proof fn lemma_budget_prefix(m: ArtModel, budget: int, cur: int, stride: int, k: nat)
    requires
        m.lines.len() <= budget,
    ensures
        m.with_budget(budget).walk(cur, stride, k).0.lines.is_prefix_of(
            m.with_budget(budget + 1).walk(cur, stride, k).0.lines,
        ),
        ({
            let small = m.with_budget(budget).walk(cur, stride, k);
            let large = m.with_budget(budget + 1).walk(cur, stride, k);
            &&& small.0.max_lines == budget
            &&& large.0.max_lines == budget + 1
            &&& small.0.pins == m.pins
            &&& large.0.pins == m.pins
            &&& small.0.lines.len() <= budget
            &&& (small.0 == large.0.with_budget(budget) && small.1 == large.1) || small.0.lines.len()
                == budget
        }),
    decreases k,
{
    let small = m.with_budget(budget).walk(cur, stride, k);
    let large = m.with_budget(budget + 1).walk(cur, stride, k);
    if k == 0 {
        assert(small.0.lines =~= large.0.lines);
    } else {
        lemma_budget_prefix(m, budget, cur, stride, (k - 1) as nat);
        let s0 = m.with_budget(budget).walk(cur, stride, (k - 1) as nat);
        let l0 = m.with_budget(budget + 1).walk(cur, stride, (k - 1) as nat);
        lemma_step_keeps_pins(s0.0, s0.1);
        lemma_step_keeps_pins(l0.0, l0.1);
        if s0.0.lines.len() == budget {
            assert(s0.0.step(s0.1) == s0.0);
            assert(small.0.lines == s0.0.lines);
            assert(large.0.lines == l0.0.lines || large.0.lines == l0.0.lines.push(
                (l0.1 as usize, l0.0.next_pin(l0.1) as usize),
            ));
            assert(small.0.lines.is_prefix_of(large.0.lines));
        } else {
            lemma_budget_only_stops(l0.0, budget, l0.1);
            assert(l0.0.with_budget(budget) == s0.0);
            assert(small.0 == large.0.with_budget(budget));
            assert(small.0.lines =~= large.0.lines);
        }
    }
}

/// On a target that is white everywhere no chord has a positive score.
pub proof fn lemma_white_scores(m: ArtModel, a: int, b: int)
    requires
        m.wf(),
        forall|i: int| 0 <= i < m.target.len() ==> m.target[i] == 255,
    ensures
        m.score(a, b) is Some ==> m.score(a, b).unwrap() <= 0,
{
    let t = m.tally(a, b);
    if m.chord_len(a, b) >= 0 {
        lemma_deposit_bounds(m, m.zero_grid(), a, b, m.chord_len(a, b), true);
    }
    lemma_ceil_div(m.width, m.block);
    lemma_ceil_div(m.height, m.block);
    lemma_white_sum(m, t, m.cells());
}

proof fn lemma_white_sum(m: ArtModel, t: Seq<int>, k: int)
    requires
        m.wf(),
        forall|i: int| 0 <= i < m.target.len() ==> m.target[i] == 255,
        t.len() == m.cells(),
        forall|c: int| 0 <= c < t.len() ==> 0 <= #[trigger] t[c],
        k <= m.cells(),
    ensures
        m.score_sum(t, k) <= 0,
    decreases k,
{
    if k > 0 {
        lemma_white_sum(m, t, k - 1);
        let c = k - 1;
        let gw = m.grid_w();
        let gh = m.grid_h();
        lemma_ceil_div(m.width, m.block);
        lemma_ceil_div(m.height, m.block);
        lemma_cell_split(c, gw, gh);
        lemma_origin(c % gw, m.width, m.block);
        lemma_origin(c / gw, m.height, m.block);
        lemma_index((c / gw) * m.block, (c % gw) * m.block, m.width, m.height);
        let cnt = t[c];
        let ink = m.blocks[c];
        let area = m.block * m.block;
        assert(m.target[m.pixel_index(m.cell_origin(c))] == 255);
        assert(cnt * (2 * 0 * area - 255 * (2 * ink + cnt)) <= 0) by (nonlinear_arith)
            requires
                cnt >= 0,
                ink >= 0,
        ;
    }
}

/// On a target that is white everywhere a step commits nothing, and a walk
/// leaves the state as it was: the log stays empty whatever the budget.
pub proof fn lemma_white_commits_nothing(m: ArtModel, cur: int, stride: int, k: nat)
    requires
        m.wf(),
        0 <= cur < m.pins.len(),
        forall|i: int| 0 <= i < m.target.len() ==> m.target[i] == 255,
    ensures
        m.winner(cur) is None,
        m.step(cur) == m,
        m.walk(cur, stride, k).0 == m,
        0 <= m.walk(cur, stride, k).1 < m.pins.len(),
    decreases k,
{
    lemma_best_is_maximal(m, cur, m.pins.len() as int);
    if m.best(cur, m.pins.len() as int) is Some {
        lemma_white_scores(m, cur, m.best(cur, m.pins.len() as int).unwrap().0);
    }
    if k > 0 {
        lemma_white_commits_nothing(m, cur, stride, (k - 1) as nat);
        let before = m.walk(cur, stride, (k - 1) as nat);
        lemma_white_commits_nothing(m, before.1, stride, 0);
        lemma_mod_bound(stride, m.pins.len() as int);
    }
}

} // verus!
