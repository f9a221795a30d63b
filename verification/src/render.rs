//! The rasterizer: an array of values drawn as a bar chart, one bar per
//! value, each bar coloured by its value and lightened by its highlight.

use vstd::prelude::*;
use vstd::arithmetic::div_mod::{lemma_fundamental_div_mod, lemma_fundamental_div_mod_converse};
use std::collections::HashMap;
use rayon::iter::{IndexedParallelIterator, ParallelIterator};
use rayon::slice::ParallelSliceMut;
use crate::codec::{encode_rgb8, png_rgb8};
use crate::color::{sample_spec, Color, Gradient};
use crate::highlight::{fracs, intensity, intensity_of};
use crate::ratio::{Frac, Ratio};

verus! {

/// The geometry and colours of a chart. All lengths are in pixels.
#[derive(Clone, Debug)]
pub struct Sort {
    /// Width of one bar.
    pub bar_width: u32,
    /// Height of the area in which the bars stand.
    pub height: u32,
    /// Margin left and right of the bars.
    pub margin: u32,
    /// Margin above and below the bars.
    pub margin_top: u32,
    /// Gap between two neighbouring bars.
    pub spacing: u32,
    /// Colour of everything that is not a bar.
    pub bg_color: Color,
    /// Colours of the bars, from the smallest value to the largest.
    pub colors: Gradient,
}

/// Why a chart cannot be rendered.
#[derive(Clone, Copy, Debug, PartialEq, Eq, Structural)]
pub enum RenderError {
    /// The gradient holds no colour stop.
    EmptyGradient,
    /// The list holds no value above zero, so no bar has a height.
    NoPositiveValue,
    /// The canvas, or its pixel buffer, does not fit in 32 bits.
    CanvasTooLarge,
    /// The image encoder refused the pixel buffer.
    Encoding,
}

/// A canvas of pixels: `height` rows of `width` pixels, row after row, each
/// pixel as three bytes in the order red, green, blue.
#[derive(Clone, Debug)]
pub struct Raster {
    pub width: u32,
    pub height: u32,
    pub data: Vec<u8>,
}

/// The largest value of `list`, and 0 for an empty list.
pub open spec fn max_value(list: Seq<u32>) -> int
    decreases list.len(),
{
    if list.len() == 0 {
        0
    } else if list.last() > max_value(list.drop_last()) {
        list.last() as int
    } else {
        max_value(list.drop_last())
    }
}

/// No value of a list is above its maximum, and the maximum of a list that
/// is not empty is one of its values.
pub proof fn lemma_max_value(list: Seq<u32>)
    ensures
        forall|i: int| 0 <= i < list.len() ==> list[i] <= max_value(list),
        list.len() > 0 ==> exists|i: int| 0 <= i < list.len() && list[i] == max_value(list),
        0 <= max_value(list) <= u32::MAX,
    decreases list.len(),
{
    if list.len() > 0 {
        let rest = list.drop_last();
        lemma_max_value(rest);
        assert forall|i: int| 0 <= i < list.len() implies list[i] <= max_value(list) by {
            if i < rest.len() {
                assert(rest[i] == list[i]);
            }
        }
        if list.last() > max_value(rest) {
            assert(list[list.len() - 1] == max_value(list));
        } else if rest.len() > 0 {
            let i = choose|i: int| 0 <= i < rest.len() && rest[i] == max_value(rest);
            assert(list[i] == max_value(list));
        } else {
            assert(list[0] == max_value(list));
        }
    }
}

/// Computes the largest value of `list`, 0 for an empty list.
pub fn max_of(list: &Vec<u32>) -> (m: u32)
    ensures
        m == max_value(list@),
{
    let mut m: u32 = 0;
    let mut i: usize = 0;
    while i < list.len()
        invariant
            i <= list@.len(),
            m == max_value(list@.take(i as int)),
        decreases list@.len() - i,
    {
        assert(list@.take(i + 1).drop_last() =~= list@.take(i as int));
        if list[i] > m {
            m = list[i];
        }
        i += 1;
    }
    assert(list@.take(i as int) =~= list@);
    m
}

impl Sort {
    /// Width of the canvas for `bars` bars: both margins, the bars, and the
    /// gaps between them.
    pub open spec fn canvas_width(self, bars: int) -> int {
        2 * self.margin + self.spacing * (bars - 1) + self.bar_width * bars
    }

    /// Height of the canvas: the chart and the margins above and below it.
    pub open spec fn canvas_height(self) -> int {
        self.height + 2 * self.margin_top
    }

    /// A canvas for `bars` bars can be held: there is at least one bar, both
    /// sides fit in 32 bits, and so does the size of the pixel buffer.
    pub open spec fn fits(self, bars: int) -> bool {
        &&& bars >= 1
        &&& self.canvas_width(bars) <= u32::MAX
        &&& self.canvas_height() <= u32::MAX
        &&& 3 * self.canvas_width(bars) * self.canvas_height() <= u32::MAX
    }

    /// Distance from the left edge of one bar to the left edge of the next.
    pub open spec fn pitch(self) -> int {
        self.bar_width + self.spacing
    }

    /// A bar of `value` reaches the chart row `bar_y`, counted from the top
    /// of the chart: `value / max >= 1 - bar_y / height`.
    pub open spec fn bar_filled(self, value: u32, max: int, bar_y: int) -> bool {
        value * self.height >= (self.height - bar_y) * max
    }

    /// The colour of a bar of `value`: the gradient at `value / max`, blended
    /// towards white by the bar's highlight intensity.
    pub open spec fn bar_color(self, value: u32, max: int, light: Frac) -> Color {
        sample_spec(self.colors.stops(), Frac { num: value as int, den: max }).lerp_spec(
            Color(0xFF_FFFF),
            light,
        )
    }

    /// The colour of the column of bar `i` in the chart row `bar_y`.
    pub open spec fn bar_pixel(
        self,
        list: Seq<u32>,
        highlights: Map<usize, Frac>,
        i: int,
        bar_y: int,
    ) -> Color {
        if self.bar_filled(list[i], max_value(list), bar_y) {
            self.bar_color(list[i], max_value(list), intensity(highlights, i))
        } else {
            self.bg_color
        }
    }

    /// The colour of the pixel in column `x` of row `y`.
    pub open spec fn pixel(
        self,
        list: Seq<u32>,
        highlights: Map<usize, Frac>,
        x: int,
        y: int,
    ) -> Color {
        let k = x - self.margin;
        if y < self.margin_top || y >= self.margin_top + self.height {
            self.bg_color
        } else if k < 0 || x >= self.canvas_width(list.len() as int) - self.margin {
            self.bg_color
        } else if k % self.pitch() >= self.bar_width {
            self.bg_color
        } else {
            self.bar_pixel(list, highlights, k / self.pitch(), y - self.margin_top)
        }
    }

    /// Row `y` of the canvas: three bytes for each pixel, from left to right.
    pub open spec fn row_bytes(
        self,
        list: Seq<u32>,
        highlights: Map<usize, Frac>,
        y: int,
    ) -> Seq<u8> {
        Seq::new(
            (3 * self.canvas_width(list.len() as int)) as nat,
            |j: int| self.pixel(list, highlights, j / 3, y).channels()[j % 3],
        )
    }

    /// The whole canvas: its rows from top to bottom, one after the other.
    pub open spec fn frame_bytes(self, list: Seq<u32>, highlights: Map<usize, Frac>) -> Seq<u8> {
        let row_len = 3 * self.canvas_width(list.len() as int);
        Seq::new(
            (row_len * self.canvas_height()) as nat,
            |k: int| self.row_bytes(list, highlights, k / row_len)[k % row_len],
        )
    }

    /// Computes the canvas size for `bars` bars, as width and height, where
    /// such a canvas can be held.
    pub fn canvas_size(&self, bars: usize) -> (size: Option<(u32, u32)>)
        ensures
            size is Some <==> self.fits(bars as int),
            size matches Some((w, h)) ==> w == self.canvas_width(bars as int) && h
                == self.canvas_height(),
    {
        if bars == 0 {
            return None;
        }
        let gaps: u128 = (bars - 1) as u128;
        assert(0 <= (self.spacing as int) * (gaps as int) <= 0x1_0000_0000 * 0x1_0000_0000_0000_0000
            && 0 <= (self.bar_width as int) * (bars as int) <= 0x1_0000_0000
            * 0x1_0000_0000_0000_0000) by (nonlinear_arith)
            requires
                0 <= self.spacing <= 0x1_0000_0000,
                0 <= self.bar_width <= 0x1_0000_0000,
                0 <= gaps <= 0x1_0000_0000_0000_0000,
                0 <= bars <= 0x1_0000_0000_0000_0000,
        ;
        let bars_width: u128 = (self.bar_width as u128) * (bars as u128);
        let gaps_width: u128 = (self.spacing as u128) * gaps;
        let width: u128 = 2 * (self.margin as u128) + gaps_width + bars_width;
        let height: u64 = (self.height as u64) + 2 * (self.margin_top as u64);
        if width > u32::MAX as u128 || height > u32::MAX as u64 {
            return None;
        }
        assert(0 <= (width as int) * (height as int) <= 0x1_0000_0000 * 0x1_0000_0000)
            by (nonlinear_arith)
            requires
                0 <= width <= 0x1_0000_0000,
                0 <= height <= 0x1_0000_0000,
        ;
        assert(3 * (width as int) * (height as int) == 3 * ((width as int) * (height as int)))
            by (nonlinear_arith);
        let area: u128 = width * (height as u128);
        if 3 * area > u32::MAX as u128 {
            return None;
        }
        Some((width as u32, height as u32))
    }

    /// The colour bytes of bar `i` in the chart row `bar_y`.
    fn bar_rgb(
        &self,
        list: &Vec<u32>,
        max: u32,
        highlights: &HashMap<usize, Ratio>,
        i: usize,
        bar_y: u32,
    ) -> (rgb: [u8; 3])
        requires
            self.colors.wf(),
            max > 0,
            max == max_value(list@),
            i < list@.len(),
            bar_y < self.height,
        ensures
            rgb@ == self.bar_pixel(list@, fracs(highlights@), i as int, bar_y as int).channels(),
    {
        let value: u32 = list[i];
        let rest: u32 = self.height - bar_y;
        assert(0 <= (value as int) * (self.height as int) <= 0xFFFF_FFFF * 0xFFFF_FFFF) by (nonlinear_arith)
            requires
                0 <= value <= 0xFFFF_FFFF,
                0 <= self.height <= 0xFFFF_FFFF,
        ;
        assert(0 <= (rest as int) * (max as int) <= 0xFFFF_FFFF * 0xFFFF_FFFF) by (nonlinear_arith)
            requires
                0 <= rest <= 0xFFFF_FFFF,
                0 <= max <= 0xFFFF_FFFF,
        ;
        if (value as u64) * (self.height as u64) >= (rest as u64) * (max as u64) {
            let light = intensity_of(highlights, i);
            let at = Ratio::known(value as i64, max as i64);
            self.colors.sample(at).lerp(&Color(0xFF_FFFF), light).to_rgb()
        } else {
            self.bg_color.to_rgb()
        }
    }

    /// Paints row `y` of the canvas into `row`: a row in the margin above or
    /// below the chart is all background; a row of the chart is the left
    /// margin, then the bars with a gap before each but the first, then the
    /// right margin.
    fn paint_row(
        &self,
        list: &Vec<u32>,
        max: u32,
        highlights: &HashMap<usize, Ratio>,
        y: usize,
        row: &mut [u8],
    )
        requires
            self.colors.wf(),
            max > 0,
            max == max_value(list@),
            self.fits(list@.len() as int),
            y < self.canvas_height(),
            old(row)@.len() == 3 * self.canvas_width(list@.len() as int),
        ensures
            final(row)@ == self.row_bytes(list@, fracs(highlights@), y as int),
    {
        let ghost hl = fracs(highlights@);
        let ghost n = list@.len() as int;
        let ghost w = self.canvas_width(n);
        let bg = self.bg_color.to_rgb();
        let top: usize = self.margin_top as usize;
        if y < top || y >= top + self.height as usize {
            let width: usize = row.len() / 3;
            fill(row, 0, width, &bg);
            assert(row@ =~= self.row_bytes(list@, hl, y as int));
        } else {
            let bar_y: u32 = (y - top) as u32;
            let margin: usize = self.margin as usize;
            let bar_width: usize = self.bar_width as usize;
            let spacing: usize = self.spacing as usize;
            proof {
                self.lemma_bar_span(n, 0);
            }
            fill(row, 0, margin, &bg);
            let mut px: usize = margin;
            let mut i: usize = 0;
            while i < list.len()
                invariant
                    i <= n,
                    n == list@.len(),
                    n >= 1,
                    w == self.canvas_width(n),
                    w <= u32::MAX,
                    hl == fracs(highlights@),
                    self.colors.wf(),
                    max > 0,
                    max == max_value(list@),
                    bar_y < self.height,
                    y == bar_y + self.margin_top,
                    margin == self.margin,
                    bar_width == self.bar_width,
                    spacing == self.spacing,
                    bg@ == self.bg_color.channels(),
                    row@.len() == 3 * w,
                    i == 0 ==> px == margin,
                    i > 0 ==> px == margin + (i - 1) * self.pitch() + bar_width,
                    px <= w - margin,
                    forall|j: int|
                        0 <= j < 3 * px ==> #[trigger] row@[j] == self.pixel(
                            list@,
                            hl,
                            j / 3,
                            y as int,
                        ).channels()[j % 3],
                decreases n - i,
            {
                proof {
                    self.lemma_bar_span(n, i as int);
                }
                if i != 0 {
                    fill(row, px, spacing, &bg);
                    proof {
                        assert forall|j: int| 3 * px <= j < 3 * (px + spacing) implies #[trigger] row@[j]
                            == self.pixel(list@, hl, j / 3, y as int).channels()[j % 3] by {
                            self.lemma_pixel_in_gap(list@, hl, i as int, j / 3, y as int);
                        }
                    }
                    px += spacing;
                }
                let rgb = self.bar_rgb(list, max, highlights, i, bar_y);
                fill(row, px, bar_width, &rgb);
                proof {
                    assert forall|j: int| 3 * px <= j < 3 * (px + bar_width) implies #[trigger] row@[j]
                        == self.pixel(list@, hl, j / 3, y as int).channels()[j % 3] by {
                        self.lemma_pixel_in_bar(list@, hl, i as int, j / 3, y as int);
                    }
                }
                px += bar_width;
                i += 1;
            }
            proof {
                self.lemma_bar_span(n, n - 1);
            }
            fill(row, px, margin, &bg);
            assert(row@ =~= self.row_bytes(list@, hl, y as int));
        }
    }

    /// Why `list` cannot be drawn with this configuration, if it cannot.
    pub open spec fn refusal(self, list: Seq<u32>) -> Option<RenderError> {
        if !self.colors.wf() {
            Some(RenderError::EmptyGradient)
        } else if max_value(list) == 0 {
            Some(RenderError::NoPositiveValue)
        } else if !self.fits(list.len() as int) {
            Some(RenderError::CanvasTooLarge)
        } else {
            None
        }
    }

    /// What [`Sort::render`] returns: the refusal where there is one, else
    /// the encoded canvas, or the encoder's failure.
    pub open spec fn render_spec(
        self,
        list: Seq<u32>,
        highlights: Map<usize, Frac>,
    ) -> Result<Seq<u8>, RenderError> {
        match self.refusal(list) {
            Some(e) => Err(e),
            None => match png_rgb8(
                self.canvas_width(list.len() as int) as u32,
                self.canvas_height() as u32,
                self.frame_bytes(list, highlights),
            ) {
                Some(bytes) => Ok(bytes),
                None => Err(RenderError::Encoding),
            },
        }
    }

    /// Draws `list` as a bar chart on a canvas of pixels. It is refused where
    /// the gradient is empty, no value is positive, or the canvas is too
    /// large, in this order.
    pub fn rasterize(&self, list: &Vec<u32>, highlights: &HashMap<usize, Ratio>) -> (r: Result<
        Raster,
        RenderError,
    >)
        ensures
            match r {
                Ok(raster) => {
                    &&& self.refusal(list@) is None
                    &&& raster.width == self.canvas_width(list@.len() as int)
                    &&& raster.height == self.canvas_height()
                    &&& raster.data@ == self.frame_bytes(list@, fracs(highlights@))
                },
                Err(e) => self.refusal(list@) == Some(e),
            },
    {
        if self.colors.colors.len() == 0 {
            return Err(RenderError::EmptyGradient);
        }
        let max: u32 = max_of(list);
        if max == 0 {
            return Err(RenderError::NoPositiveValue);
        }
        let (width, height) = match self.canvas_size(list.len()) {
            Some(size) => size,
            None => {
                return Err(RenderError::CanvasTooLarge);
            },
        };
        let ghost hl = fracs(highlights@);
        let mut data: Vec<u8> = Vec::new();
        if width == 0 || height == 0 {
            assert(3 * (width as int) * (height as int) == 0) by (nonlinear_arith)
                requires
                    width == 0 || height == 0,
            ;
            assert(data@ =~= self.frame_bytes(list@, hl));
            return Ok(Raster { width, height, data });
        }
        assert(3 * (width as int) <= 3 * (width as int) * (height as int)) by (nonlinear_arith)
            requires
                width >= 0,
                height >= 1,
        ;
        let row_len: usize = 3 * (width as usize);
        data.resize(row_len * (height as usize), 0);
        paint_rows(self, list, max, highlights, row_len, &mut data);
        proof {
            let rows = height as int;
            let len = row_len as int;
            assert forall|k: int| 0 <= k < len * rows implies #[trigger] data@[k] == self.row_bytes(
                list@,
                hl,
                k / len,
            )[k % len] by {
                let y = k / len;
                lemma_fundamental_div_mod(k, len);
                assert(0 <= y < rows) by (nonlinear_arith)
                    requires
                        k == len * y + k % len,
                        0 <= k % len < len,
                        0 <= k < len * rows,
                ;
                assert((y + 1) * len == y * len + len && y * len == len * y) by (nonlinear_arith);
                assert((y + 1) * len <= len * rows) by (nonlinear_arith)
                    requires
                        y + 1 <= rows,
                        len >= 0,
                ;
                let chunk = data@.subrange(y * len, (y + 1) * len);
                assert(chunk[k % len] == data@[k]);
            }
            assert(data@ =~= self.frame_bytes(list@, hl));
        }
        Ok(Raster { width, height, data })
    }

    /// Draws `list` as a bar chart and encodes the canvas as an image of
    /// eight bits for each of red, green and blue.
    pub fn render(&self, list: &Vec<u32>, highlights: HashMap<usize, Ratio>) -> (r: Result<
        Vec<u8>,
        RenderError,
    >)
        ensures
            match r {
                Ok(bytes) => self.render_spec(list@, fracs(highlights@)) == Ok::<
                    Seq<u8>,
                    RenderError,
                >(bytes@),
                Err(e) => self.render_spec(list@, fracs(highlights@)) == Err::<
                    Seq<u8>,
                    RenderError,
                >(e),
            },
    {
        match self.rasterize(list, &highlights) {
            Ok(raster) => {
                assert(3 * (raster.width as int) * (raster.height as int) == 3 * raster.width
                    * raster.height);
                encoded(encode_rgb8(raster.width, raster.height, &raster.data))
            },
            Err(e) => Err(e),
        }
    }

    /// The canvas is laid out row by row with three bytes for each pixel:
    /// byte `c` of the pixel in column `x` of row `y` stands at
    /// `(y * width + x) * 3 + c`.
    pub proof fn lemma_frame_pixel(
        self,
        list: Seq<u32>,
        highlights: Map<usize, Frac>,
        x: int,
        y: int,
        c: int,
    )
        requires
            0 <= x < self.canvas_width(list.len() as int),
            0 <= y < self.canvas_height(),
            0 <= c < 3,
        ensures
            0 <= (y * self.canvas_width(list.len() as int) + x) * 3 + c < self.frame_bytes(
                list,
                highlights,
            ).len(),
            self.frame_bytes(list, highlights)[(y * self.canvas_width(list.len() as int) + x) * 3
                + c] == self.pixel(list, highlights, x, y).channels()[c],
    {
        let w = self.canvas_width(list.len() as int);
        let h = self.canvas_height();
        let row_len = 3 * w;
        let k = (y * w + x) * 3 + c;
        let j = 3 * x + c;
        assert(k == y * row_len + j) by (nonlinear_arith)
            requires
                k == (y * w + x) * 3 + c,
                j == 3 * x + c,
                row_len == 3 * w,
        ;
        assert(0 <= k < row_len * h) by (nonlinear_arith)
            requires
                k == y * row_len + j,
                0 <= j < row_len,
                0 <= y < h,
        ;
        lemma_fundamental_div_mod_converse(k, row_len, y, j);
    }

    /// The rows above and below the chart show the background.
    pub proof fn lemma_pixel_in_margin_row(
        self,
        list: Seq<u32>,
        highlights: Map<usize, Frac>,
        x: int,
        y: int,
    )
        requires
            y < self.margin_top || y >= self.margin_top + self.height,
        ensures
            self.pixel(list, highlights, x, y) == self.bg_color,
    {
    }

    /// The columns of the left and of the right margin show the background.
    pub proof fn lemma_pixel_in_margin_column(
        self,
        list: Seq<u32>,
        highlights: Map<usize, Frac>,
        x: int,
        y: int,
    )
        requires
            x < self.margin || x >= self.canvas_width(list.len() as int) - self.margin,
        ensures
            self.pixel(list, highlights, x, y) == self.bg_color,
    {
    }

    /// Bar `i` of `n` ends left of the right margin, and the gap before a
    /// bar ends where the bar begins.
    pub proof fn lemma_bar_span(self, n: int, i: int)
        requires
            0 <= i < n,
        ensures
            self.margin + i * self.pitch() + self.bar_width <= self.canvas_width(n) - self.margin,
            self.margin + (n - 1) * self.pitch() + self.bar_width == self.canvas_width(n)
                - self.margin,
            i > 0 ==> self.margin + (i - 1) * self.pitch() + self.bar_width + self.spacing
                == self.margin + i * self.pitch(),
            i * self.pitch() >= 0,
    {
        let p = self.pitch();
        let bw = self.bar_width as int;
        let sp = self.spacing as int;
        assert(i * p <= (n - 1) * p && (n - 1) * p + bw == sp * (n - 1) + bw * n && (i - 1) * p + p
            == i * p && i * p >= 0) by (nonlinear_arith)
            requires
                0 <= i < n,
                p == bw + sp,
                p >= 0,
        ;
    }

    /// In a row of the chart, the columns of bar `i` show that bar.
    pub proof fn lemma_pixel_in_bar(
        self,
        list: Seq<u32>,
        highlights: Map<usize, Frac>,
        i: int,
        x: int,
        y: int,
    )
        requires
            0 <= i < list.len(),
            self.margin_top <= y < self.margin_top + self.height,
            self.margin + i * self.pitch() <= x < self.margin + i * self.pitch() + self.bar_width,
        ensures
            self.pixel(list, highlights, x, y) == self.bar_pixel(
                list,
                highlights,
                i,
                y - self.margin_top,
            ),
    {
        self.lemma_bar_span(list.len() as int, i);
        let k = x - self.margin;
        let p = self.pitch();
        let j = k - i * p;
        assert(k == i * p + j);
        lemma_fundamental_div_mod_converse(k, p, i, j);
    }

    /// In a row of the chart, the columns of the gap before bar `i` show the
    /// background.
    pub proof fn lemma_pixel_in_gap(
        self,
        list: Seq<u32>,
        highlights: Map<usize, Frac>,
        i: int,
        x: int,
        y: int,
    )
        requires
            1 <= i < list.len(),
            self.margin_top <= y < self.margin_top + self.height,
            self.margin + (i - 1) * self.pitch() + self.bar_width <= x < self.margin + i
                * self.pitch(),
        ensures
            self.pixel(list, highlights, x, y) == self.bg_color,
    {
        self.lemma_bar_span(list.len() as int, i);
        self.lemma_bar_span(list.len() as int, i - 1);
        let k = x - self.margin;
        let p = self.pitch();
        let j = k - (i - 1) * p;
        assert(k == (i - 1) * p + j);
        lemma_fundamental_div_mod_converse(k, p, i - 1, j);
    }
}

/// Maps the encoder's outcome to the library's: the bytes where it
/// succeeded, and [`RenderError::Encoding`] where it failed.
pub fn encoded(outcome: Result<Vec<u8>, png::EncodingError>) -> (r: Result<Vec<u8>, RenderError>)
    ensures
        match outcome {
            Ok(bytes) => r == Ok::<Vec<u8>, RenderError>(bytes),
            Err(_) => r == Err::<Vec<u8>, RenderError>(RenderError::Encoding),
        },
{
    match outcome {
        Ok(bytes) => Ok(bytes),
        Err(_) => Err(RenderError::Encoding),
    }
}

/// Paints all rows of a canvas, each by [`Sort::paint_row`], in parallel.
///
/// Trusted: this is `par_chunks_mut(row_len).enumerate().for_each(..)` of
/// rayon. The contract claims that rayon cuts `data` into consecutive rows
/// of `row_len` bytes, and runs the closure exactly once on each row together
/// with the row's index, so that every row ends as `paint_row` leaves it.
#[verifier::external_body]
fn paint_rows(
    cfg: &Sort,
    list: &Vec<u32>,
    max: u32,
    highlights: &HashMap<usize, Ratio>,
    row_len: usize,
    data: &mut Vec<u8>,
)
    requires
        cfg.colors.wf(),
        max > 0,
        max == max_value(list@),
        cfg.fits(list@.len() as int),
        row_len > 0,
        row_len == 3 * cfg.canvas_width(list@.len() as int),
        old(data)@.len() == row_len * cfg.canvas_height(),
    ensures
        final(data)@.len() == old(data)@.len(),
        forall|y: int|
            0 <= y < cfg.canvas_height() ==> #[trigger] final(data)@.subrange(
                y * row_len,
                (y + 1) * row_len,
            ) == cfg.row_bytes(list@, fracs(highlights@), y),
{
    data.par_chunks_mut(row_len).enumerate().for_each(
        |(y, row)| cfg.paint_row(list, max, highlights, y, row),
    );
}

/// Writes `count` pixels of the colour `rgb` into `row`, from pixel `start`
/// on, and leaves the rest of the row as it is.
fn fill(row: &mut [u8], start: usize, count: usize, rgb: &[u8; 3])
    requires
        3 * (start + count) <= old(row)@.len(),
    ensures
        final(row)@.len() == old(row)@.len(),
        forall|k: int|
            3 * start <= k < 3 * (start + count) ==> #[trigger] final(row)@[k] == rgb@[k % 3],
        forall|k: int|
            0 <= k < 3 * start || 3 * (start + count) <= k < old(row)@.len()
                ==> #[trigger] final(row)@[k] == old(row)@[k],
{
    let len: usize = row.len();
    let mut done: usize = 0;
    while done < count
        invariant
            done <= count,
            3 * (start + count) <= len,
            len == row@.len(),
            row@.len() == old(row)@.len(),
            forall|k: int|
                3 * start <= k < 3 * (start + done) ==> #[trigger] row@[k] == rgb@[k % 3],
            forall|k: int|
                0 <= k < 3 * start || 3 * (start + done) <= k < old(row)@.len()
                    ==> #[trigger] row@[k] == old(row)@[k],
        decreases count - done,
    {
        let at: usize = 3 * (start + done);
        row[at] = rgb[0];
        row[at + 1] = rgb[1];
        row[at + 2] = rgb[2];
        done += 1;
    }
}

} // verus!
