use vstd::prelude::*;
use crate::grid::Grid;
use crate::position::GridPosition;

verus! {

/// One drawn row: for x from `xmin` to `xmin + width`, `#` where the cell at
/// `(x, y)` is alive and `-` where it is dead.
pub open spec fn row(alive: Set<GridPosition>, xmin: int, y: int, width: nat) -> Seq<char> {
    Seq::new(
        width + 1,
        |dx: int|
            if alive.contains(GridPosition((xmin + dx) as i64, y as i64)) {
                '#'
            } else {
                '-'
            },
    )
}

/// Something that turns grids into output.
pub trait Renderer {
    type Output;

    /// The renderer's own invariant.
    spec fn ready(&self) -> bool;

    fn render(&mut self, grid: &Grid) -> (r: Self::Output)
        requires
            old(self).ready(),
            grid.wf(),
        ensures
            final(self).ready(),
    ;
}

/// Relies on `String`'s `FromIterator<&char>`: the string holds the characters in order.
#[verifier::external_body]
fn chars_to_string(chars: &Vec<char>) -> (r: String)
    ensures
        r@ == chars@,
{
    chars.iter().collect()
}

/// Draws a fixed window of the plane as text, one frame beside the other
/// (separated by a tab) until the first line reaches a length threshold; the
/// collected lines are then handed out to be printed.
#[derive(Debug)]
pub struct BufferedTextRenderer {
    lines: Vec<Vec<char>>,
    count: usize,
    line_length_threshold: Option<usize>,
    xmin: i64,
    ymin: i64,
    width: usize,
    height: usize,
}

impl BufferedTextRenderer {
    /// The text collected so far, one entry per row of the window.
    pub closed spec fn buffered(&self) -> Seq<Seq<char>> {
        self.lines@.map_values(|l: Vec<char>| l@)
    }

    /// How many frames the buffer holds.
    pub closed spec fn pending(&self) -> nat {
        self.count as nat
    }

    pub closed spec fn threshold(&self) -> Option<usize> {
        self.line_length_threshold
    }

    pub closed spec fn left(&self) -> int {
        self.xmin as int
    }

    pub closed spec fn top(&self) -> int {
        self.ymin as int
    }

    pub closed spec fn columns(&self) -> nat {
        self.width as nat
    }

    pub closed spec fn rows(&self) -> nat {
        self.height as nat
    }

    pub closed spec fn wf(&self) -> bool {
        &&& self.lines@.len() == self.height + 1
        &&& self.xmin + self.width <= i64::MAX
        &&& self.ymin + self.height <= i64::MAX
        &&& self.width < usize::MAX
        &&& self.height < usize::MAX
    }

    /// The buffer once `alive` has been drawn into it.
    pub open spec fn drawn(&self, alive: Set<GridPosition>) -> Seq<Seq<char>> {
        Seq::new(
            self.rows() + 1,
            |dy: int|
                self.buffered()[dy] + (if self.pending() > 0 {
                    seq!['\t']
                } else {
                    Seq::<char>::empty()
                }) + row(alive, self.left(), self.top() + dy, self.columns()),
        )
    }

    /// Drawing `alive` takes the first line to the threshold.
    pub open spec fn due(&self, alive: Set<GridPosition>) -> bool {
        match self.threshold() {
            Some(t) => self.drawn(alive)[0].len() >= t,
            None => false,
        }
    }

    /// A renderer for the square window from `-mid_length` to `mid_length` on both axes.
    pub fn square(mid_length: usize, line_length_threshold: Option<usize>) -> (r: Self)
        requires
            mid_length > 0,
            mid_length <= i64::MAX,
            2 * mid_length < usize::MAX,
        ensures
            r.wf(),
            r.left() == -mid_length,
            r.top() == -mid_length,
            r.columns() == 2 * mid_length,
            r.rows() == 2 * mid_length,
            r.threshold() == line_length_threshold,
            r.pending() == 0,
            forall|i: int| 0 <= i < r.buffered().len() ==> #[trigger] r.buffered()[i].len() == 0,
    {
        Self::new(
            -(mid_length as i64),
            2 * mid_length,
            -(mid_length as i64),
            2 * mid_length,
            line_length_threshold,
        )
    }

    pub fn new(
        xmin: i64,
        width: usize,
        ymin: i64,
        height: usize,
        line_length_threshold: Option<usize>,
    ) -> (r: Self)
        requires
            xmin + width <= i64::MAX,
            ymin + height <= i64::MAX,
            width < usize::MAX,
            height < usize::MAX,
        ensures
            r.wf(),
            r.left() == xmin,
            r.top() == ymin,
            r.columns() == width,
            r.rows() == height,
            r.threshold() == line_length_threshold,
            r.pending() == 0,
            r.buffered().len() == height + 1,
            forall|i: int| 0 <= i < r.buffered().len() ==> #[trigger] r.buffered()[i].len() == 0,
    {
        let mut lines: Vec<Vec<char>> = Vec::new();
        let mut i: usize = 0;
        while i <= height
            invariant
                i <= height + 1,
                height < usize::MAX,
                lines@.len() == i,
                forall|j: int| 0 <= j < i ==> #[trigger] lines@[j]@.len() == 0,
            decreases height + 1 - i,
        {
            lines.push(Vec::new());
            i += 1;
        }
        BufferedTextRenderer { lines, count: 0, line_length_threshold, xmin, ymin, width, height }
    }

    /// Hands out the buffered lines followed by an empty line, and empties the
    /// buffer; hands out nothing while the buffer holds no frame.
    pub fn flush(&mut self) -> (r: Vec<String>)
        requires
            old(self).wf(),
        ensures
            final(self).wf(),
            final(self).left() == old(self).left(),
            final(self).top() == old(self).top(),
            final(self).columns() == old(self).columns(),
            final(self).rows() == old(self).rows(),
            final(self).threshold() == old(self).threshold(),
            old(self).pending() == 0 ==> r@.len() == 0 && final(self).buffered() == old(self).buffered()
                && final(self).pending() == 0,
            old(self).pending() > 0 ==> {
                &&& r@.len() == old(self).rows() + 2
                &&& forall|i: int| 0 <= i <= old(self).rows() ==> #[trigger] r@[i]@ == old(self).buffered()[i]
                &&& r@[r@.len() - 1]@.len() == 0
                &&& final(self).pending() == 0
                &&& final(self).buffered().len() == old(self).buffered().len()
                &&& forall|i: int| 0 <= i < final(self).buffered().len() ==> #[trigger] final(self).buffered()[i].len() == 0
            },
    {
        let mut out: Vec<String> = Vec::new();
        if self.count == 0 {
            return out;
        }
        let mut dy: usize = 0;
        while dy <= self.height
            invariant
                self.wf(),
                old(self).wf(),
                self.height == old(self).height,
                self.xmin == old(self).xmin,
                self.ymin == old(self).ymin,
                self.width == old(self).width,
                self.line_length_threshold == old(self).line_length_threshold,
                self.count == old(self).count,
                dy <= self.height + 1,
                out@.len() == dy,
                forall|i: int| 0 <= i < dy ==> #[trigger] out@[i]@ == old(self).lines@[i]@,
                forall|i: int| 0 <= i < dy ==> #[trigger] self.lines@[i]@.len() == 0,
                forall|i: int| dy <= i <= self.height ==> #[trigger] self.lines@[i] == old(self).lines@[i],
            decreases self.height + 1 - dy,
        {
            let mut line: Vec<char> = Vec::new();
            self.lines.set_and_swap(dy, &mut line);
            out.push(chars_to_string(&line));
            dy += 1;
        }
        out.push(String::new());
        self.count = 0;
        out
    }
}

impl Renderer for BufferedTextRenderer {
    /// The lines that became due for printing (none while the buffer fills).
    type Output = Vec<String>;

    open spec fn ready(&self) -> bool {
        self.wf()
    }

    fn render(&mut self, grid: &Grid) -> (r: Vec<String>)
        ensures
            final(self).left() == old(self).left(),
            final(self).top() == old(self).top(),
            final(self).columns() == old(self).columns(),
            final(self).rows() == old(self).rows(),
            final(self).threshold() == old(self).threshold(),
            !old(self).due(grid@) ==> {
                &&& r@.len() == 0
                &&& final(self).buffered() == old(self).drawn(grid@)
                &&& final(self).pending() == if old(self).pending() < usize::MAX {
                    old(self).pending() + 1
                } else {
                    old(self).pending()
                }
            },
            old(self).due(grid@) && old(self).pending() == 0 ==> {
                &&& r@.len() == 0
                &&& final(self).buffered() == old(self).drawn(grid@)
                &&& final(self).pending() == 0
            },
            old(self).due(grid@) && old(self).pending() > 0 ==> {
                &&& r@.len() == old(self).rows() + 2
                &&& forall|i: int| 0 <= i <= old(self).rows() ==> #[trigger] r@[i]@ == old(self).drawn(grid@)[i]
                &&& r@[r@.len() - 1]@.len() == 0
                &&& final(self).pending() == 0
                &&& forall|i: int| 0 <= i < final(self).buffered().len() ==> #[trigger] final(self).buffered()[i].len() == 0
            },
    {
        let ghost target = self.drawn(grid@);
        let mut dy: usize = 0;
        while dy <= self.height
            invariant
                self.wf(),
                old(self).wf(),
                grid.wf(),
                self.height == old(self).height,
                self.xmin == old(self).xmin,
                self.ymin == old(self).ymin,
                self.width == old(self).width,
                self.line_length_threshold == old(self).line_length_threshold,
                self.count == old(self).count,
                target == old(self).drawn(grid@),
                dy <= self.height + 1,
                forall|i: int| 0 <= i < dy ==> #[trigger] self.lines@[i]@ == target[i],
                forall|i: int| dy <= i <= self.height ==> #[trigger] self.lines@[i] == old(self).lines@[i],
            decreases self.height + 1 - dy,
        {
            let y: i64 = ((self.ymin as i128) + (dy as i128)) as i64;
            assert(self.lines@[dy as int] == old(self).lines@[dy as int]);
            assert(old(self).buffered()[dy as int] == old(self).lines@[dy as int]@);
            let mut line: Vec<char> = Vec::new();
            self.lines.set_and_swap(dy, &mut line);
            let ghost start = line@;
            if self.count > 0 {
                line.push('\t');
            }
            let ghost lead = line@;
            let mut dx: usize = 0;
            while dx <= self.width
                invariant
                    self.wf(),
                    grid.wf(),
                    self.xmin == old(self).xmin,
                    self.width == old(self).width,
                    y == self.ymin + dy,
                    dx <= self.width + 1,
                    line@ == lead + row(grid@, self.xmin as int, y as int, self.width as nat).take(dx as int),
                decreases self.width + 1 - dx,
            {
                let x: i64 = ((self.xmin as i128) + (dx as i128)) as i64;
                let c = if grid.is_live(GridPosition::new(x, y)) {
                    '#'
                } else {
                    '-'
                };
                let ghost before = line@;
                line.push(c);
                assert(row(grid@, self.xmin as int, y as int, self.width as nat).take(dx + 1)
                    =~= row(grid@, self.xmin as int, y as int, self.width as nat).take(dx as int).push(c));
                dx += 1;
            }
            proof {
                assert(row(grid@, self.xmin as int, y as int, self.width as nat).take(dx as int)
                    =~= row(grid@, self.xmin as int, y as int, self.width as nat));
                assert(start == old(self).buffered()[dy as int]);
                assert(line@ =~= target[dy as int]);
            }
            self.lines.set_and_swap(dy, &mut line);
            dy += 1;
        }
        proof {
            assert(self.buffered() =~= target);
        }
        if let Some(line_width_threshold) = self.line_length_threshold {
            if self.lines[0].len() >= line_width_threshold {
                return self.flush();
            }
        }
        if self.count < usize::MAX {
            self.count += 1;
        }
        Vec::new()
    }
}

/// Draws the window once per call and hands the frame out at once.
pub struct TextRenderer {
    buffer: BufferedTextRenderer,
}

impl TextRenderer {
    /// The window as `BufferedTextRenderer::square` with no threshold.
    pub closed spec fn window(&self) -> BufferedTextRenderer {
        self.buffer
    }

    pub fn square(mid_length: usize) -> (r: Self)
        requires
            mid_length > 0,
            mid_length <= i64::MAX,
            2 * mid_length < usize::MAX,
        ensures
            r.ready(),
            r.window().left() == -mid_length,
            r.window().top() == -mid_length,
            r.window().columns() == 2 * mid_length,
            r.window().rows() == 2 * mid_length,
    {
        TextRenderer { buffer: BufferedTextRenderer::square(mid_length, None) }
    }
}

impl Renderer for TextRenderer {
    /// The lines of the frame, followed by an empty line.
    type Output = Vec<String>;

    open spec fn ready(&self) -> bool {
        &&& self.window().wf()
        &&& self.window().pending() == 0
        &&& self.window().threshold() is None
        &&& forall|i: int| 0 <= i < self.window().buffered().len() ==> #[trigger] self.window().buffered()[i].len() == 0
    }

    fn render(&mut self, grid: &Grid) -> (r: Vec<String>)
        ensures
            final(self).window().left() == old(self).window().left(),
            final(self).window().top() == old(self).window().top(),
            final(self).window().columns() == old(self).window().columns(),
            final(self).window().rows() == old(self).window().rows(),
            r@.len() == old(self).window().rows() + 2,
            forall|i: int| 0 <= i <= old(self).window().rows() ==> #[trigger] r@[i]@ == row(
                grid@,
                old(self).window().left(),
                old(self).window().top() + i,
                old(self).window().columns(),
            ),
            r@[r@.len() - 1]@.len() == 0,
    {
        let drawn = self.buffer.render(grid);
        let out = self.buffer.flush();
        proof {
            assert forall|i: int| 0 <= i <= old(self).window().rows() implies #[trigger] out@[i]@ == row(
                grid@,
                old(self).window().left(),
                old(self).window().top() + i,
                old(self).window().columns(),
            ) by {
                assert(old(self).window().buffered()[i] =~= Seq::<char>::empty());
                assert(old(self).window().drawn(grid@)[i] =~= row(
                    grid@,
                    old(self).window().left(),
                    old(self).window().top() + i,
                    old(self).window().columns(),
                ));
            }
        }
        out
    }
}

} // verus!
