use vstd::prelude::*;

verus! {

/// The shading of a brightness: 0 (black) is a full block, 255 (white) a space.
pub open spec fn shade(b: u8) -> char {
    let idx = (b as int * 4) / 255;
    if idx == 0 {
        '\u{2588}'
    } else if idx == 1 {
        '\u{2593}'
    } else if idx == 2 {
        '\u{2592}'
    } else if idx == 3 {
        '\u{2591}'
    } else {
        ' '
    }
}

/// The palette by brightness band: below 64 a full block, then dark, medium
/// and light shade, and a space only for pure white.
pub proof fn lemma_shade_bands(b: u8)
    ensures
        b < 64 ==> shade(b) == '\u{2588}',
        64 <= b < 128 ==> shade(b) == '\u{2593}',
        128 <= b < 192 ==> shade(b) == '\u{2592}',
        192 <= b < 255 ==> shade(b) == '\u{2591}',
        b == 255 ==> shade(b) == ' ',
{
    let idx = (b as int * 4) / 255;
    assert(b < 64 ==> idx == 0) by (nonlinear_arith)
        requires idx == (b as int * 4) / 255, 0 <= b;
    assert(64 <= b < 128 ==> idx == 1) by (nonlinear_arith)
        requires idx == (b as int * 4) / 255;
    assert(128 <= b < 192 ==> idx == 2) by (nonlinear_arith)
        requires idx == (b as int * 4) / 255;
    assert(192 <= b < 255 ==> idx == 3) by (nonlinear_arith)
        requires idx == (b as int * 4) / 255;
    assert(b == 255 ==> idx == 4) by (nonlinear_arith)
        requires idx == (b as int * 4) / 255;
}

/// At least 1.
pub open spec fn at_least_one(n: usize) -> int {
    if n == 0 { 1 } else { n as int }
}

/// The pixel sampled for cell (`row`, `col`) of a `cols` x `rows` grid over
/// an `img_w` x `img_h` image (nearest pixel by integer scaling, clamped to the
/// image; 0 outside the pixel buffer).
pub open spec fn sample(pixels: Seq<u8>, img_w: usize, img_h: usize, cols: int, rows: int, row: int, col: int) -> u8 {
    let last_x = if img_w > 0 { img_w - 1 } else { 0 };
    let last_y = if img_h > 0 { img_h - 1 } else { 0 };
    let px = if col * img_w / cols < last_x { col * img_w / cols } else { last_x };
    let py = if row * img_h / rows < last_y { row * img_h / rows } else { last_y };
    let idx = py * img_w + px;
    if idx < pixels.len() { pixels[idx] } else { 0 }
}

/// One line of the art: the shaded cells of `row`, then a line break.
pub open spec fn art_line(pixels: Seq<u8>, img_w: usize, img_h: usize, cols: int, rows: int, row: int) -> Seq<char> {
    Seq::new(cols as nat, |c: int| shade(sample(pixels, img_w, img_h, cols, rows, row, c))).push('\n')
}

/// The first `n` lines of the art.
pub open spec fn art_lines(pixels: Seq<u8>, img_w: usize, img_h: usize, cols: int, rows: int, n: nat) -> Seq<char>
    decreases n,
{
    if n == 0 {
        Seq::empty()
    } else {
        art_lines(pixels, img_w, img_h, cols, rows, (n - 1) as nat) + art_line(pixels, img_w, img_h, cols, rows, n - 1)
    }
}

/// `String::push`: appends `c`, as its documentation states.
#[verifier::external_body]
fn push_char(s: &mut String, c: char)
    ensures
        final(s)@ == old(s)@.push(c),
{
    s.push(c);
}

/// The block character of a brightness (see `shade`).
fn shade_of(b: u8) -> (r: char)
    ensures
        r == shade(b),
{
    let idx = (b as u32 * 4) / 255;
    if idx == 0 {
        '\u{2588}'
    } else if idx == 1 {
        '\u{2593}'
    } else if idx == 2 {
        '\u{2592}'
    } else if idx == 3 {
        '\u{2591}'
    } else {
        ' '
    }
}

/// Scales a greyscale image to `cols` x `rows` cells (each at least 1) and
/// renders each cell as a block character by brightness, one line per row.
pub fn pixels_to_block_chars(pixels: &[u8], img_w: usize, img_h: usize, cols: usize, rows: usize) -> (r: String)
    requires
        at_least_one(cols) * img_w <= usize::MAX,
        at_least_one(rows) * img_h <= usize::MAX,
        img_w * img_h <= usize::MAX,
    ensures
        r@ == art_lines(pixels@, img_w, img_h, at_least_one(cols), at_least_one(rows), at_least_one(rows) as nat),
{
    let cols = if cols == 0 { 1 } else { cols };
    let rows = if rows == 0 { 1 } else { rows };
    let last_x = if img_w > 0 { img_w - 1 } else { 0 };
    let last_y = if img_h > 0 { img_h - 1 } else { 0 };
    let mut out = String::new();
    let mut row: usize = 0;
    while row < rows
        invariant
            row <= rows,
            rows >= 1,
            cols >= 1,
            cols * img_w <= usize::MAX,
            rows * img_h <= usize::MAX,
            img_w * img_h <= usize::MAX,
            last_x == (if img_w > 0 { img_w - 1 } else { 0 }),
            last_y == (if img_h > 0 { img_h - 1 } else { 0 }),
            out@ == art_lines(pixels@, img_w, img_h, cols as int, rows as int, row as nat),
        decreases rows - row,
    {
        let ghost before = out@;
        assert(row * img_h <= rows * img_h) by (nonlinear_arith)
            requires row < rows;
        let y = row * img_h / rows;
        let py = if y < last_y { y } else { last_y };
        let mut col: usize = 0;
        while col < cols
            invariant
                row < rows,
                col <= cols,
                rows >= 1,
                cols >= 1,
                cols * img_w <= usize::MAX,
                img_w * img_h <= usize::MAX,
                last_x == (if img_w > 0 { img_w - 1 } else { 0 }),
                last_y == (if img_h > 0 { img_h - 1 } else { 0 }),
                py == (if row * img_h / (rows as int) < last_y { row * img_h / (rows as int) } else { last_y as int }),
                out@ == before + Seq::new(col as nat, |c: int| shade(sample(pixels@, img_w, img_h, cols as int, rows as int, row as int, c))),
            decreases cols - col,
        {
            assert(col * img_w <= cols * img_w) by (nonlinear_arith)
                requires col < cols;
            let x = col * img_w / cols;
            let px = if x < last_x { x } else { last_x };
            if img_h > 0 {
                assert(py * img_w + px <= img_w * img_h) by (nonlinear_arith)
                    requires py <= img_h - 1, px <= last_x, last_x == (if img_w > 0 { img_w - 1 } else { 0 }), img_h > 0;
            } else {
                assert(py == 0);
                assert(py * img_w == 0) by (nonlinear_arith)
                    requires py == 0;
            }
            let idx = py * img_w + px;
            let b: u8 = if idx < pixels.len() { pixels[idx] } else { 0 };
            let ch = shade_of(b);
            let ghost prev = out@;
            push_char(&mut out, ch);
            assert(out@ =~= before + Seq::new((col + 1) as nat, |c: int| shade(sample(pixels@, img_w, img_h, cols as int, rows as int, row as int, c))));
            col = col + 1;
        }
        push_char(&mut out, '\n');
        assert(out@ =~= art_lines(pixels@, img_w, img_h, cols as int, rows as int, (row + 1) as nat));
        row = row + 1;
    }
    out
}

} // verus!
