//! A grid of pixels painted from colours, and its encoding as plain PPM.
use vstd::prelude::*;

use crate::geometry::SCALE;

verus! {

/// The largest value of a pixel channel.
pub const PIXEL_MAX: u64 = 255;

/// The longest line of pixel values in the encoding.
pub const LINE_MAX: usize = 70;

/// A colour; each channel counts millionths, so `SCALE` is full intensity.
#[derive(Clone, Copy, Debug, PartialEq, Eq, Structural)]
pub struct Colour {
    pub red: i64,
    pub green: i64,
    pub blue: i64,
}

impl Colour {
    pub fn new(red: i64, green: i64, blue: i64) -> (r: Colour)
        ensures
            r.red == red && r.green == green && r.blue == blue,
    {
        Colour { red, green, blue }
    }
}

#[derive(Clone, Copy, Debug, PartialEq, Eq, Structural)]
pub struct Width(pub usize);

#[derive(Clone, Copy, Debug, PartialEq, Eq, Structural)]
pub struct Height(pub usize);

/// A colour clamped to `0..=PIXEL_MAX` on each channel.
#[derive(Clone, Copy, Debug, PartialEq, Eq, Structural)]
pub struct Pixel {
    pub red: u64,
    pub green: u64,
    pub blue: u64,
}

/// One channel: full intensity and above give `PIXEL_MAX`, below zero gives
/// zero, and in between the value scaled to `PIXEL_MAX`, rounded half up.
pub open spec fn channel_spec(x: i64) -> u64 {
    if x > SCALE {
        PIXEL_MAX
    } else if x < 0 {
        0
    } else {
        ((2 * x * PIXEL_MAX + SCALE) / (2 * SCALE as int)) as u64
    }
}

fn channel(x: i64) -> (r: u64)
    ensures
        r == channel_spec(x),
        r <= PIXEL_MAX,
{
    if x > SCALE {
        PIXEL_MAX
    } else if x < 0 {
        0
    } else {
        let n = 2 * (x as u64) * PIXEL_MAX + (SCALE as u64);
        let d = 2 * (SCALE as u64);
        proof {
            vstd::arithmetic::div_mod::lemma_div_is_ordered(n as int, d * PIXEL_MAX + d, d as int);
            vstd::arithmetic::div_mod::lemma_div_multiples_vanish((PIXEL_MAX + 1) as int, d as int);
            assert(d * PIXEL_MAX + d == d * (PIXEL_MAX + 1)) by (nonlinear_arith);
        }
        n / d
    }
}

impl Pixel {
    pub open spec fn paint_spec(colour: Colour) -> Pixel {
        Pixel {
            red: channel_spec(colour.red),
            green: channel_spec(colour.green),
            blue: channel_spec(colour.blue),
        }
    }

    /// The pixel that shows a colour.
    pub fn paint(colour: Colour) -> (r: Pixel)
        ensures
            r == Pixel::paint_spec(colour),
    {
        Pixel { red: channel(colour.red), green: channel(colour.green), blue: channel(colour.blue) }
    }
}

#[derive(Clone, Copy, Debug, PartialEq, Eq, Structural)]
pub enum WriteError {
    OutOfBounds,
}

/// A grid of `height` rows of `width` pixels.
#[derive(Clone, Debug)]
pub struct Canvas {
    width: usize,
    height: usize,
    pixels: Vec<Vec<Pixel>>,
}

pub open spec fn black() -> Pixel {
    Pixel { red: 0, green: 0, blue: 0 }
}

impl View for Canvas {
    type V = Seq<Seq<Pixel>>;

    closed spec fn view(&self) -> Seq<Seq<Pixel>> {
        Seq::new(self.pixels@.len(), |i: int| self.pixels@[i]@)
    }
}

fn copy_row(row: &Vec<Pixel>) -> (r: Vec<Pixel>)
    ensures
        r@ == row@,
{
    let mut r: Vec<Pixel> = Vec::new();
    let mut i: usize = 0;
    while i < row.len()
        invariant
            i <= row.len(),
            r@ == row@.subrange(0, i as int),
        decreases row.len() - i,
    {
        r.push(row[i]);
        i = i + 1;
    }
    assert(row@.subrange(0, row@.len() as int) == row@);
    r
}

impl Canvas {
    pub closed spec fn width_spec(&self) -> nat {
        self.width as nat
    }

    pub closed spec fn height_spec(&self) -> nat {
        self.height as nat
    }

    /// Every row holds `width` pixels and there are `height` rows.
    pub open spec fn wf(&self) -> bool {
        &&& self@.len() == self.height_spec()
        &&& forall|i: int| 0 <= i < self@.len() ==> #[trigger] self@[i].len() == self.width_spec()
    }

    /// A black canvas.
    pub fn new(width: Width, height: Height) -> (r: Canvas)
        ensures
            r.wf(),
            r.width_spec() == width.0,
            r.height_spec() == height.0,
            forall|i: int, j: int|
                0 <= i < height.0 && 0 <= j < width.0 ==> r@[i][j] == black(),
    {
        let Width(w) = width;
        let Height(h) = height;
        let mut pixels: Vec<Vec<Pixel>> = Vec::new();
        let mut i: usize = 0;
        while i < h
            invariant
                i <= h,
                pixels@.len() == i,
                forall|k: int| 0 <= k < i ==> (#[trigger] pixels@[k])@.len() == w,
                forall|k: int, j: int| 0 <= k < i && 0 <= j < w ==> pixels@[k]@[j] == black(),
            decreases h - i,
        {
            let mut row: Vec<Pixel> = Vec::new();
            let mut j: usize = 0;
            while j < w
                invariant
                    j <= w,
                    row@.len() == j,
                    forall|k: int| 0 <= k < j ==> row@[k] == black(),
                decreases w - j,
            {
                row.push(Pixel { red: 0, green: 0, blue: 0 });
                j = j + 1;
            }
            pixels.push(row);
            i = i + 1;
        }
        Canvas { width: w, height: h, pixels }
    }

    pub fn width(&self) -> (r: usize)
        ensures
            r == self.width_spec(),
    {
        self.width
    }

    pub fn height(&self) -> (r: usize)
        ensures
            r == self.height_spec(),
    {
        self.height
    }

    /// The pixel at a column and row.
    pub fn pixel_at(&self, column: usize, row: usize) -> (r: Option<Pixel>)
        requires
            self.wf(),
        ensures
            column < self.width_spec() && row < self.height_spec() ==> r == Some(
                self@[row as int][column as int],
            ),
            !(column < self.width_spec() && row < self.height_spec()) ==> r is None,
    {
        if column < self.width && row < self.height {
            assert(self@[row as int].len() == self.width_spec());
            Some(self.pixels[row][column])
        } else {
            None
        }
    }

    /// Paints one pixel; a position outside the grid is an error and leaves
    /// the canvas as it was.
    pub fn paint_colour(&mut self, column: usize, row: usize, colour: Colour) -> (r: Result<
        (),
        WriteError,
    >)
        requires
            old(self).wf(),
        ensures
            final(self).wf(),
            final(self).width_spec() == old(self).width_spec(),
            final(self).height_spec() == old(self).height_spec(),
            r is Err <==> (column >= old(self).width_spec() || row >= old(self).height_spec()),
            r is Err ==> final(self)@ == old(self)@,
            r is Ok ==> final(self)@ == old(self)@.update(
                row as int,
                old(self)@[row as int].update(column as int, Pixel::paint_spec(colour)),
            ),
    {
        if column >= self.width || row >= self.height {
            return Err(WriteError::OutOfBounds);
        }
        assert(self@[row as int].len() == self.width_spec());
        let mut line = copy_row(&self.pixels[row]);
        line.set(column, Pixel::paint(colour));
        self.pixels.set(row, line);
        assert(self@ =~= old(self)@.update(
            row as int,
            old(self)@[row as int].update(column as int, Pixel::paint_spec(colour)),
        ));
        Ok(())
    }
}

/// The decimal digits of `n`, in ASCII.
pub open spec fn decimal_spec(n: nat) -> Seq<u8>
    decreases n,
{
    if n < 10 {
        seq![(48 + n) as u8]
    } else {
        decimal_spec(n / 10).push((48 + n % 10) as u8)
    }
}

fn decimal(n: u64) -> (r: Vec<u8>)
    ensures
        r@ == decimal_spec(n as nat),
    decreases n,
{
    if n < 10 {
        let mut v: Vec<u8> = Vec::new();
        v.push(48u8 + n as u8);
        v
    } else {
        let mut v = decimal(n / 10);
        v.push(48u8 + (n % 10) as u8);
        v
    }
}

/// A line without its trailing space.
pub open spec fn trim_end(b: Seq<u8>) -> Seq<u8> {
    if b.len() > 0 && b.last() == 32 {
        b.drop_last()
    } else {
        b
    }
}

/// The lines that a row's values fill, `buf` being the line begun: each value
/// is followed by a space, and a new line is begun before a value that would
/// take the line, its space included, past `LINE_MAX` columns. Each line ends
/// without its last space.
pub open spec fn wrap_spec(toks: Seq<Seq<u8>>, buf: Seq<u8>) -> Seq<u8>
    decreases toks.len(),
{
    if toks.len() == 0 {
        trim_end(buf).push(10)
    } else if buf.len() + toks[0].len() + 1 > LINE_MAX {
        trim_end(buf).push(10) + wrap_spec(toks.drop_first(), toks[0].push(32))
    } else {
        wrap_spec(toks.drop_first(), buf + toks[0].push(32))
    }
}

/// The value of channel `c` (0 red, 1 green, 2 blue) of a pixel.
pub open spec fn channel_of(p: Pixel, c: int) -> u64 {
    if c == 0 {
        p.red
    } else if c == 1 {
        p.green
    } else {
        p.blue
    }
}

/// The values of a row: red, green and blue of each pixel in turn.
pub open spec fn row_tokens(row: Seq<Pixel>) -> Seq<Seq<u8>> {
    Seq::new(3 * row.len(), |k: int| decimal_spec(channel_of(row[k / 3], k % 3) as nat))
}

/// The text of the rows, one after another.
pub open spec fn rows_text(rows: Seq<Seq<Pixel>>) -> Seq<u8>
    decreases rows.len(),
{
    if rows.len() == 0 {
        Seq::empty()
    } else {
        rows_text(rows.drop_last()) + wrap_spec(row_tokens(rows.last()), Seq::empty())
    }
}

/// The header: the format tag `P3`, the width and height, and the largest
/// channel value, on three lines.
pub open spec fn header_spec(width: nat, height: nat) -> Seq<u8> {
    seq![80u8, 51u8, 10u8] + decimal_spec(width) + seq![32u8] + decimal_spec(height) + seq![10u8]
        + decimal_spec(PIXEL_MAX as nat) + seq![10u8]
}

fn push_bytes(out: &mut Vec<u8>, b: &Vec<u8>)
    ensures
        final(out)@ == old(out)@ + b@,
{
    let mut i: usize = 0;
    while i < b.len()
        invariant
            i <= b.len(),
            out@ == old(out)@ + b@.subrange(0, i as int),
        decreases b.len() - i,
    {
        out.push(b[i]);
        i = i + 1;
        assert(out@ =~= old(out)@ + b@.subrange(0, i as int));
    }
    assert(b@.subrange(0, b@.len() as int) =~= b@);
}

/// Adds one value to the row being written.
fn put_token(out: &mut Vec<u8>, buf: &mut Vec<u8>, tok: &Vec<u8>)
    ensures
        forall|rest: Seq<Seq<u8>>|
            old(out)@ + wrap_spec(seq![tok@] + rest, old(buf)@) == final(out)@ + wrap_spec(
                rest,
                final(buf)@,
            ),
{
    if buf.len() > LINE_MAX || tok.len() >= LINE_MAX - buf.len() {
        end_line(out, buf);
        push_bytes(buf, tok);
        buf.push(32u8);
        assert forall|rest: Seq<Seq<u8>>|
            old(out)@ + wrap_spec(seq![tok@] + rest, old(buf)@) == out@ + wrap_spec(
                rest,
                buf@,
            ) by {
            assert((seq![tok@] + rest).drop_first() =~= rest);
        }
    } else {
        push_bytes(buf, tok);
        buf.push(32u8);
        assert forall|rest: Seq<Seq<u8>>|
            old(out)@ + wrap_spec(seq![tok@] + rest, old(buf)@) == out@ + wrap_spec(
                rest,
                buf@,
            ) by {
            assert((seq![tok@] + rest).drop_first() =~= rest);
            assert(old(buf)@ + tok@.push(32) =~= buf@);
        }
    }
}

/// Ends the line being written and begins an empty one.
fn end_line(out: &mut Vec<u8>, buf: &mut Vec<u8>)
    ensures
        final(out)@ == old(out)@ + trim_end(old(buf)@).push(10),
        final(buf)@ == Seq::<u8>::empty(),
{
    let n = buf.len();
    let keep = if n > 0 && buf[n - 1] == 32u8 {
        n - 1
    } else {
        n
    };
    let mut i: usize = 0;
    while i < keep
        invariant
            keep <= buf.len(),
            buf@ == old(buf)@,
            i <= keep,
            out@ == old(out)@ + buf@.subrange(0, i as int),
        decreases keep - i,
    {
        out.push(buf[i]);
        i = i + 1;
        assert(out@ =~= old(out)@ + buf@.subrange(0, i as int));
    }
    out.push(10u8);
    assert(trim_end(old(buf)@) =~= buf@.subrange(0, keep as int));
    *buf = Vec::new();
}

impl Canvas {
    pub open spec fn ppm_spec(&self) -> Seq<u8> {
        header_spec(self.width_spec(), self.height_spec()) + rows_text(self@)
    }

    /// The canvas as plain PPM text: the header, then each row's values on
    /// lines of at most `LINE_MAX` columns.
    pub fn write_to_ppm(&self) -> (r: Vec<u8>)
        ensures
            r@ == self.ppm_spec(),
    {
        let mut out: Vec<u8> = Vec::new();
        out.push(80u8);
        out.push(51u8);
        out.push(10u8);
        push_bytes(&mut out, &decimal(self.width as u64));
        out.push(32u8);
        push_bytes(&mut out, &decimal(self.height as u64));
        out.push(10u8);
        push_bytes(&mut out, &decimal(PIXEL_MAX));
        out.push(10u8);
        let ghost header = out@;
        assert(header =~= header_spec(self.width_spec(), self.height_spec()));
        let mut i: usize = 0;
        while i < self.pixels.len()
            invariant
                i <= self@.len(),
                self@.len() == self.pixels@.len(),
                out@ == header + rows_text(self@.subrange(0, i as int)),
            decreases self@.len() - i,
        {
            let row = &self.pixels[i];
            let ghost toks = row_tokens(row@);
            let ghost before = out@;
            let mut buf: Vec<u8> = Vec::new();
            let mut j: usize = 0;
            assert(toks.subrange(0, toks.len() as int) =~= toks);
            assert(buf@ =~= Seq::<u8>::empty());
            while j < row.len()
                invariant
                    j <= row@.len(),
                    toks == row_tokens(row@),
                    out@ + wrap_spec(toks.subrange(3 * j, toks.len() as int), buf@) == before
                        + wrap_spec(toks, Seq::empty()),
                decreases row@.len() - j,
            {
                let p = row[j];
                let ghost rest = toks.subrange(3 * j + 3, toks.len() as int);
                assert(toks.subrange(3 * j, toks.len() as int) =~= seq![toks[3 * j]] + (seq![
                    toks[3 * j + 1],
                ] + (seq![toks[3 * j + 2]] + rest)));
                assert(toks[3 * j] == decimal_spec(p.red as nat));
                assert(toks[3 * j + 1] == decimal_spec(p.green as nat));
                assert(toks[3 * j + 2] == decimal_spec(p.blue as nat));
                put_token(&mut out, &mut buf, &decimal(p.red));
                put_token(&mut out, &mut buf, &decimal(p.green));
                put_token(&mut out, &mut buf, &decimal(p.blue));
                j = j + 1;
            }
            end_line(&mut out, &mut buf);
            proof {
                assert(toks.subrange(3 * j, toks.len() as int) =~= Seq::<Seq<u8>>::empty());
                let s = self@.subrange(0, i + 1);
                assert(s.drop_last() =~= self@.subrange(0, i as int));
                assert(s.last() == row@);
            }
            i = i + 1;
        }
        assert(self@.subrange(0, self@.len() as int) =~= self@);
        out
    }
}

} // verus!
