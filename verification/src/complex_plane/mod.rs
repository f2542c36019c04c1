//! The integer side of drawing on the complex plane: colours and the
//! pixels of the axes.
use vstd::prelude::*;

verus! {

/// The red, green, blue and alpha bytes of a colour written `0xRRGGBBAA`.
pub open spec fn channels(rgba: u32) -> Seq<u8> {
    seq![
        ((rgba >> 24) & 0xff) as u8,
        ((rgba >> 16) & 0xff) as u8,
        ((rgba >> 8) & 0xff) as u8,
        (rgba & 0xff) as u8,
    ]
}

/// The bytes of a pixel of colour `rgba` (`0xRRGGBBAA`).
pub fn rgba_bytes(rgba: u32) -> (r: [u8; 4])
    ensures
        r@ == channels(rgba),
{
    let r = [
        (0xff & (rgba >> 24)) as u8,
        (0xff & (rgba >> 16)) as u8,
        (0xff & (rgba >> 8)) as u8,
        (0xff & rgba) as u8,
    ];
    assert(r@ =~= channels(rgba)) by {
        assert((0xff & (rgba >> 24)) == ((rgba >> 24) & 0xff)) by (bit_vector);
        assert((0xff & (rgba >> 16)) == ((rgba >> 16) & 0xff)) by (bit_vector);
        assert((0xff & (rgba >> 8)) == ((rgba >> 8) & 0xff)) by (bit_vector);
        assert((0xff & rgba) == (rgba & 0xff)) by (bit_vector);
    }
    r
}

/// The four bytes of a colour put together give the colour back.
pub proof fn law_colour_roundtrip(rgba: u32)
    ensures
        ({
            let c = channels(rgba);
            (c[0] as u32) << 24 | (c[1] as u32) << 16 | (c[2] as u32) << 8 | (c[3] as u32) == rgba
        }),
{
    let c = channels(rgba);
    assert(((((rgba >> 24) & 0xff) as u8) as u32) << 24 | ((((rgba >> 16) & 0xff) as u8) as u32)
        << 16 | ((((rgba >> 8) & 0xff) as u8) as u32) << 8 | (((rgba & 0xff) as u8) as u32) == rgba)
        by (bit_vector);
}

/// The pixels of the axes through `(o_x, o_y)`, in drawing order: the
/// horizontal line left of the origin, then from it to `width`, then the
/// vertical line above the origin, then from it to `width`.
pub open spec fn axis(o_x: u32, o_y: u32, width: u32) -> Seq<(u32, u32)> {
    let right = if o_x <= width {
        width - o_x
    } else {
        0
    };
    let down = if o_y <= width {
        width - o_y
    } else {
        0
    };
    Seq::new(o_x as nat, |x: int| (x as u32, o_y)) + Seq::new(
        right as nat,
        |i: int| ((o_x + i) as u32, o_y),
    ) + Seq::new(o_y as nat, |y: int| (o_x, y as u32)) + Seq::new(
        down as nat,
        |i: int| (o_x, (o_y + i) as u32),
    )
}

/// The pixels to colour for the axes through the origin pixel `(o_x, o_y)`
/// of a plane `width` pixels wide.
pub fn axis_pixels(o_x: u32, o_y: u32, width: u32) -> (r: Vec<(u32, u32)>)
    ensures
        r@ == axis(o_x, o_y, width),
{
    let mut r: Vec<(u32, u32)> = Vec::new();
    let mut x: u32 = 0;
    while x < o_x
        invariant
            x <= o_x,
            r@ =~= Seq::new(x as nat, |i: int| (i as u32, o_y)),
        decreases o_x - x,
    {
        r.push((x, o_y));
        x = x + 1;
    }
    let ghost a = r@;
    let mut x: u32 = o_x;
    while x < width
        invariant
            o_x <= x,
            x <= width || x == o_x,
            r@ =~= a + Seq::new((x - o_x) as nat, |i: int| ((o_x + i) as u32, o_y)),
        decreases width - x,
    {
        r.push((x, o_y));
        x = x + 1;
    }
    let ghost b = r@;
    assert(b =~= Seq::new(o_x as nat, |x: int| (x as u32, o_y)) + Seq::new(
        (if o_x <= width { width - o_x } else { 0 }) as nat,
        |i: int| ((o_x + i) as u32, o_y),
    ));
    let mut y: u32 = 0;
    while y < o_y
        invariant
            y <= o_y,
            r@ =~= b + Seq::new(y as nat, |i: int| (o_x, i as u32)),
        decreases o_y - y,
    {
        r.push((o_x, y));
        y = y + 1;
    }
    let ghost c = r@;
    let mut y: u32 = o_y;
    while y < width
        invariant
            o_y <= y,
            y <= width || y == o_y,
            r@ =~= c + Seq::new((y - o_y) as nat, |i: int| (o_x, (o_y + i) as u32)),
        decreases width - y,
    {
        r.push((o_x, y));
        y = y + 1;
    }
    r
}

} // verus!
