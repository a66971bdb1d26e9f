//! Plain-text portable pixmaps: a three-line header, then one line of three
//! decimal numbers per pixel, rows from the top, each row left to right.

use vstd::prelude::*;

verus! {

/// The byte that ends a line.
pub const NEWLINE: u8 = 10;

/// The byte that separates two numbers on a line.
pub const SPACE: u8 = 32;

/// The byte of the minus sign.
pub const MINUS: u8 = 45;

/// The byte of the digit zero; the other digits follow it in order.
pub const ZERO: u8 = 48;

/// The largest value of a channel, which the header announces.
pub const MAX_CHANNEL: u8 = 255;

/// One pixel: its red, green and blue channel.
pub type Rgb = (u8, u8, u8);

/// The byte of the decimal digit `d`.
pub open spec fn digit(d: nat) -> u8
    recommends
        d < 10,
{
    (ZERO + d) as u8
}

/// Whether `b` is the byte of a decimal digit.
pub open spec fn is_digit(b: u8) -> bool {
    ZERO <= b <= ZERO + 9
}

/// The decimal numeral of `n`, most significant digit first: a single `0` for
/// zero, and no leading zero otherwise.
pub open spec fn numeral(n: nat) -> Seq<u8>
    decreases n,
{
    if n < 10 {
        seq![digit(n)]
    } else {
        numeral(n / 10).push(digit(n % 10))
    }
}

/// The number that a string of digits denotes, read most significant digit
/// first.
pub open spec fn numeral_value(s: Seq<u8>) -> nat
    decreases s.len(),
{
    if s.len() == 0 {
        0
    } else {
        (numeral_value(s.drop_last()) * 10 + (s.last() - ZERO)) as nat
    }
}

/// The decimal numeral of an integer: a minus sign before the numeral of the
/// magnitude where `v` is negative.
pub open spec fn signed_numeral(v: int) -> Seq<u8> {
    if v < 0 {
        seq![MINUS] + numeral((-v) as nat)
    } else {
        numeral(v as nat)
    }
}

/// The two bytes that open every document: the letter P and the digit 3.
pub open spec fn magic() -> Seq<u8> {
    seq![80u8, 51u8]
}

/// The three lines of the header: the magic number, the width and the height
/// with a space between them, and the largest channel value.
pub open spec fn header_lines(width: int, height: int) -> Seq<Seq<u8>> {
    seq![
        magic(),
        signed_numeral(width) + seq![SPACE] + signed_numeral(height),
        numeral(MAX_CHANNEL as nat),
    ]
}

/// The line of one pixel, without the byte that ends it: red, green and blue
/// with a space between them.
pub open spec fn pixel_text(pixel: Rgb) -> Seq<u8> {
    numeral(pixel.0 as nat) + seq![SPACE] + numeral(pixel.1 as nat) + seq![SPACE] + numeral(
        pixel.2 as nat,
    )
}

/// The lines of a whole document: the header, then one line per pixel in the
/// order of `pixels`.
pub open spec fn document_lines(width: int, height: int, pixels: Seq<Rgb>) -> Seq<Seq<u8>> {
    header_lines(width, height) + pixels.map_values(|p: Rgb| pixel_text(p))
}

/// The text made of `lines`, each followed by a newline.
pub open spec fn join_lines(lines: Seq<Seq<u8>>) -> Seq<u8>
    decreases lines.len(),
{
    if lines.len() == 0 {
        Seq::empty()
    } else {
        join_lines(lines.drop_last()) + lines.last() + seq![NEWLINE]
    }
}

/// The number of pixels of an image: none where a side is zero or negative.
pub open spec fn pixel_count(width: int, height: int) -> nat {
    if width > 0 && height > 0 {
        (width * height) as nat
    } else {
        0
    }
}

/// Appends the decimal numeral of `n` to `out`.
pub fn push_numeral(out: &mut Vec<u8>, n: u32)
    ensures
        final(out)@ == old(out)@ + numeral(n as nat),
    decreases n,
{
    if n >= 10 {
        push_numeral(out, n / 10);
    }
    let d: u8 = (n % 10) as u8;
    out.push(ZERO + d);
    proof {
        assert(final(out)@ =~= old(out)@ + numeral(n as nat));
    }
}

/// Appends the decimal numeral of `v` to `out`, with its sign where it is
/// negative.
pub fn push_signed(out: &mut Vec<u8>, v: i32)
    ensures
        final(out)@ == old(out)@ + signed_numeral(v as int),
{
    if v < 0 {
        out.push(MINUS);
        let magnitude: u32 = (-(v as i64)) as u32;
        push_numeral(out, magnitude);
        proof {
            assert(final(out)@ =~= old(out)@ + signed_numeral(v as int));
        }
    } else {
        push_numeral(out, v as u32);
    }
}

/// Appends the line of `pixel` to `out`, newline included.
pub fn push_pixel_line(out: &mut Vec<u8>, pixel: Rgb)
    ensures
        final(out)@ == old(out)@ + pixel_text(pixel) + seq![NEWLINE],
{
    push_numeral(out, pixel.0 as u32);
    out.push(SPACE);
    push_numeral(out, pixel.1 as u32);
    out.push(SPACE);
    push_numeral(out, pixel.2 as u32);
    out.push(NEWLINE);
    proof {
        assert(final(out)@ =~= old(out)@ + pixel_text(pixel) + seq![NEWLINE]);
    }
}

/// The line of `pixel`, newline included.
pub fn pixel_line(pixel: Rgb) -> (out: Vec<u8>)
    ensures
        out@ == pixel_text(pixel) + seq![NEWLINE],
{
    let mut out: Vec<u8> = Vec::new();
    push_pixel_line(&mut out, pixel);
    proof {
        assert(out@ =~= pixel_text(pixel) + seq![NEWLINE]);
    }
    out
}

/// The header of an image of the given width and height.
pub fn header(width: i32, height: i32) -> (out: Vec<u8>)
    ensures
        out@ == join_lines(header_lines(width as int, height as int)),
{
    let mut out: Vec<u8> = Vec::new();
    out.push(80u8);
    out.push(51u8);
    out.push(NEWLINE);
    push_signed(&mut out, width);
    out.push(SPACE);
    push_signed(&mut out, height);
    out.push(NEWLINE);
    push_numeral(&mut out, MAX_CHANNEL as u32);
    out.push(NEWLINE);
    proof {
        let lines = header_lines(width as int, height as int);
        let two = lines.drop_last();
        let one = two.drop_last();
        assert(one.drop_last() =~= Seq::<Seq<u8>>::empty());
        assert(join_lines(one.drop_last()) =~= Seq::<u8>::empty());
        assert(join_lines(one) =~= magic() + seq![NEWLINE]);
        assert(join_lines(two) =~= join_lines(one) + lines[1] + seq![NEWLINE]);
        assert(out@ =~= join_lines(two) + lines[2] + seq![NEWLINE]);
    }
    out
}

/// The whole document of an image whose pixels are given row by row from the
/// top, each row from the left; nothing where their number is not that of an
/// image of this width and height.
pub fn document(width: i32, height: i32, pixels: &Vec<Rgb>) -> (out: Option<Vec<u8>>)
    ensures
        out.is_some() <==> pixels@.len() == pixel_count(width as int, height as int),
        out matches Some(text) ==> text@ == join_lines(
            document_lines(width as int, height as int, pixels@),
        ),
{
    let expected: u64 = if width > 0 && height > 0 {
        assert(width * height <= 0x7fff_ffff * 0x7fff_ffff) by (nonlinear_arith)
            requires
                0 < width <= 0x7fff_ffff,
                0 < height <= 0x7fff_ffff,
        ;
        (width as u64) * (height as u64)
    } else {
        0
    };
    if pixels.len() as u64 != expected {
        return None;
    }
    let mut out = header(width, height);
    let ghost head = header_lines(width as int, height as int);
    let mut i: usize = 0;
    proof {
        assert(pixels@.take(0).map_values(|p: Rgb| pixel_text(p)) =~= Seq::<Seq<u8>>::empty());
        assert(head + Seq::<Seq<u8>>::empty() =~= head);
    }
    while i < pixels.len()
        invariant
            i <= pixels.len(),
            head == header_lines(width as int, height as int),
            out@ == join_lines(head + pixels@.take(i as int).map_values(|p: Rgb| pixel_text(p))),
        decreases pixels.len() - i,
    {
        let pixel = pixels[i];
        push_pixel_line(&mut out, pixel);
        proof {
            let before = head + pixels@.take(i as int).map_values(|p: Rgb| pixel_text(p));
            let after = head + pixels@.take(i + 1).map_values(|p: Rgb| pixel_text(p));
            assert(after =~= before.push(pixel_text(pixel)));
            assert(after.drop_last() =~= before);
        }
        i = i + 1;
    }
    proof {
        assert(pixels@.take(i as int) =~= pixels@);
    }
    Some(out)
}

/// A numeral denotes its number: reading the digits of `numeral(n)` gives
/// `n` back, so two numbers with one numeral are equal.
pub proof fn numeral_denotes(n: nat)
    ensures
        numeral_value(numeral(n)) == n,
    decreases n,
{
    if n < 10 {
        let s = numeral(n);
        assert(s.drop_last() =~= Seq::<u8>::empty());
        assert(numeral_value(s.drop_last()) == 0);
    } else {
        numeral_denotes(n / 10);
        let s = numeral(n);
        assert(s.drop_last() =~= numeral(n / 10));
        assert(s.last() == digit(n % 10));
    }
}

/// A numeral is made of digits only, has at least one, and starts with the
/// digit zero only where the number is zero.
pub proof fn numeral_is_canonical(n: nat)
    ensures
        numeral(n).len() >= 1,
        forall|i: int| 0 <= i < numeral(n).len() ==> is_digit(#[trigger] numeral(n)[i]),
        numeral(n)[0] == ZERO <==> n == 0,
    decreases n,
{
    if n >= 10 {
        numeral_is_canonical(n / 10);
    }
}

/// No line of a document holds a newline, so the text of a document
/// splits into its lines in one way only.
pub proof fn lines_hold_no_newline(width: int, height: int, pixels: Seq<Rgb>)
    ensures
        forall|k: int, i: int|
            0 <= k < document_lines(width, height, pixels).len() && 0 <= i < document_lines(
                width,
                height,
                pixels,
            )[k].len() ==> #[trigger] document_lines(width, height, pixels)[k][i] != NEWLINE,
{
    let lines = document_lines(width, height, pixels);
    assert forall|k: int, i: int| 0 <= k < lines.len() && 0 <= i < lines[k].len() implies (
    #[trigger] lines[k][i]) != NEWLINE by {
        if k == 1 {
            signed_numeral_holds_no_newline(width);
            signed_numeral_holds_no_newline(height);
        } else if k == 2 {
            numeral_is_canonical(MAX_CHANNEL as nat);
        } else if k >= 3 {
            let pixel = pixels[k - 3];
            numeral_is_canonical(pixel.0 as nat);
            numeral_is_canonical(pixel.1 as nat);
            numeral_is_canonical(pixel.2 as nat);
        }
    }
}

proof fn signed_numeral_holds_no_newline(v: int)
    ensures
        forall|i: int|
            0 <= i < signed_numeral(v).len() ==> #[trigger] signed_numeral(v)[i] != NEWLINE,
{
    if v < 0 {
        numeral_is_canonical((-v) as nat);
    } else {
        numeral_is_canonical(v as nat);
    }
}

/// A document of an image has three lines of header and one line per pixel,
/// and the pixel in column `column` of row `row` stands on the line that
/// `row` full rows and `column` pixels come before.
pub proof fn pixel_line_place(width: int, height: int, pixels: Seq<Rgb>, column: int, row: int)
    requires
        pixels.len() == pixel_count(width, height),
        0 <= column < width,
        0 <= row < height,
    ensures
        document_lines(width, height, pixels).len() == 3 + width * height,
        0 <= row * width + column < width * height,
        document_lines(width, height, pixels)[3 + row * width + column] == pixel_text(
            pixels[row * width + column],
        ),
{
    assert(0 <= row * width + column < width * height) by (nonlinear_arith)
        requires
            0 <= column < width,
            0 <= row < height,
    ;
}

} // verus!
