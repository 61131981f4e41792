//! The integer rules of frame rendering: darkening a background, the text of
//! the article overlay and where it goes, and how to turn a photo upright.

use vstd::prelude::*;
use vstd::utf8::encode_utf8;

verus! {

broadcast use vstd::string::group_string_axioms;

/// A color channel blended with black: `value * (255 - alpha) / 255`.
pub open spec fn darkened(value: u8, overlay_alpha: u8) -> u8 {
    ((value as int * (255 - overlay_alpha as int)) / 255) as u8
}

/// Blends every pixel of the RGBA bytes `pixels` with black at
/// `overlay_alpha`; alpha bytes, and bytes after the last whole pixel, are
/// kept.
pub fn apply_darkening_overlay(pixels: &mut Vec<u8>, overlay_alpha: u8)
    ensures
        final(pixels)@.len() == old(pixels)@.len(),
        forall|i: int|
            0 <= i < old(pixels)@.len() ==> #[trigger] final(pixels)@[i] == if i < old(
                pixels,
            )@.len() / 4 * 4 && i % 4 != 3 {
                darkened(old(pixels)@[i], overlay_alpha)
            } else {
                old(pixels)@[i]
            },
{
    let n = pixels.len();
    let whole = n / 4 * 4;
    let mut i: usize = 0;
    while i < whole
        invariant
            n == old(pixels)@.len(),
            pixels@.len() == n,
            whole == n / 4 * 4,
            i <= whole,
            i % 4 == 0,
            forall|k: int|
                0 <= k < n ==> #[trigger] pixels@[k] == if k < i && k % 4 != 3 {
                    darkened(old(pixels)@[k], overlay_alpha)
                } else {
                    old(pixels)@[k]
                },
        decreases whole - i,
    {
        let keep: u16 = 255 - overlay_alpha as u16;
        let mut c: usize = 0;
        while c < 3
            invariant
                n == old(pixels)@.len(),
                pixels@.len() == n,
                whole == n / 4 * 4,
                i < whole,
                i % 4 == 0,
                c <= 3,
                keep == 255 - overlay_alpha,
                forall|k: int|
                    0 <= k < n ==> #[trigger] pixels@[k] == if (k < i && k % 4 != 3) || (i <= k
                        < i + c) {
                        darkened(old(pixels)@[k], overlay_alpha)
                    } else {
                        old(pixels)@[k]
                    },
            decreases 3 - c,
        {
            let v = pixels[i + c];
            assert(v as int * keep as int <= 255 * 255) by (nonlinear_arith)
                requires
                    v <= 255,
                    keep <= 255,
            ;
            let d = ((v as u16 * keep) / 255) as u8;
            pixels.set(i + c, d);
            c = c + 1;
        }
        i = i + 4;
    }
}

/// The title as shown: cut to its first 47 bytes and `...` when longer
/// than 50 bytes.
pub open spec fn shown_title_bytes(title: Seq<char>) -> Seq<u8> {
    let b = encode_utf8(title);
    if b.len() > 50 {
        b.take(47) + seq![46u8, 46u8, 46u8]
    } else {
        b
    }
}

/// Byte 47 of a title longer than 50 bytes starts a character, so the title
/// can be cut there.
pub open spec fn title_cuttable(title: Seq<char>) -> bool {
    let b = encode_utf8(title);
    b.len() > 50 ==> !(0x80 <= b[47] < 0xc0)
}

/// Format an article title for the overlay.
pub fn format_title(title: &str) -> (r: String)
    requires
        title_cuttable(title@),
    ensures
        encode_utf8(r@) == shown_title_bytes(title@),
{
    let bytes = title.as_bytes();
    if bytes.len() > 50 {
        let cut = cut_at_char_start(title, 47);
        let mut s = cut.to_string();
        s.append("...");
        proof {
            reveal_strlit("...");
            assert("..."@ =~= seq!['.', '.', '.']);
            lemma_encode_concat(cut@, "..."@);
            assert('.' as u32 == 46u32);
            assert((46u32 & 0x7F) as u8 == 46u8) by (bit_vector);
            reveal_with_fuel(encode_utf8, 4);
            assert(encode_utf8(seq!['.', '.', '.']) =~= seq![46u8, 46u8, 46u8]);
        }
        s
    } else {
        title.to_string()
    }
}

proof fn lemma_encode_concat(a: Seq<char>, b: Seq<char>)
    ensures
        encode_utf8(a + b) == encode_utf8(a) + encode_utf8(b),
    decreases a.len(),
{
    if a.len() == 0 {
        assert(a + b =~= b);
        assert(encode_utf8(a) =~= Seq::<u8>::empty());
        assert(Seq::<u8>::empty() + encode_utf8(b) =~= encode_utf8(b));
    } else {
        lemma_encode_concat(a.drop_first(), b);
        assert((a + b).drop_first() =~= a.drop_first() + b);
        assert((a + b)[0] == a[0]);
    }
}

/// The first `k` bytes of `s`, which end at a character start.
fn cut_at_char_start(s: &str, k: usize) -> (r: &str)
    requires
        k <= encode_utf8(s@).len(),
        k == encode_utf8(s@).len() || !(0x80 <= encode_utf8(s@)[k as int] < 0xc0),
    ensures
        encode_utf8(r@) == encode_utf8(s@).take(k as int),
{
    proof {
        lemma_char_start_is_boundary(s@, k as int);
    }
    let (a, _b) = s.split_at(k);
    a
}

proof fn lemma_char_start_is_boundary(s: Seq<char>, k: int)
    requires
        0 <= k <= encode_utf8(s).len(),
        k == encode_utf8(s).len() || !(0x80 <= encode_utf8(s)[k] < 0xc0),
    ensures
        vstd::utf8::is_char_boundary(encode_utf8(s), k),
    decreases s.len(),
{
    vstd::utf8::encode_utf8_valid_utf8(s);
    if k == 0 {
    } else if s.len() == 0 {
    } else {
        vstd::utf8::encode_utf8_first_scalar(s);
        vstd::utf8::char_is_scalar(s[0]);
        let b = encode_utf8(s);
        let first = vstd::utf8::encode_scalar(s[0] as u32);
        assert(b =~= first + encode_utf8(s.drop_first()));
        assert(vstd::utf8::pop_first_scalar(b) =~= encode_utf8(s.drop_first()));
        if k < first.len() {
            lemma_continuation_bytes(s[0] as u32, k);
            assert(b[k] == first[k]);
        } else {
            assert(encode_utf8(s.drop_first()).len() == b.len() - first.len());
            if k < b.len() {
                assert(encode_utf8(s.drop_first())[k - first.len()] == b[k]);
            }
            lemma_char_start_is_boundary(s.drop_first(), k - first.len());
        }
    }
}

proof fn lemma_continuation_byte(x: u32)
    ensures
        0x80 <= (0x80u8 | ((x & 0x3F) as u8)) < 0xc0,
{
    assert(0x80 <= (0x80u8 | ((x & 0x3F) as u8)) < 0xc0) by (bit_vector);
}

/// Every byte after the first of a character's encoding is a continuation byte.
proof fn lemma_continuation_bytes(c: u32, k: int)
    requires
        vstd::utf8::is_scalar(c),
        0 < k < vstd::utf8::encode_scalar(c).len(),
    ensures
        0x80 <= vstd::utf8::encode_scalar(c)[k] < 0xc0,
{
    lemma_continuation_byte(c);
    lemma_continuation_byte(c >> 6);
    lemma_continuation_byte(c >> 12);
}

/// Where the article date and title go in the bottom-left corner: the
/// vertical positions of the date line (drawn first, on top) and of the
/// title line, for a frame `frame_height` pixels high.
pub open spec fn overlay_positions(frame_height: u32, has_date: bool, has_title: bool) -> (int, int) {
    let title_height: int = 72;
    let date_height: int = 56;
    let line_spacing: int = 12;
    let margin: int = 40;
    let total = (if has_title {
        title_height
    } else {
        0
    }) + (if has_date {
        (if has_title {
            line_spacing
        } else {
            0
        }) + date_height
    } else {
        0
    });
    let top = (frame_height as i32) as int - margin - total;
    let title_y = if has_date {
        top + date_height + line_spacing
    } else {
        top
    };
    (top, title_y)
}

/// The vertical positions of the date and title lines of the article overlay.
pub fn article_overlay_positions(frame_height: u32, has_date: bool, has_title: bool) -> (r: (
    i32,
    i32,
))
    requires
        (frame_height as i32) as int - 180 >= i32::MIN,
    ensures
        (r.0 as int, r.1 as int) == overlay_positions(frame_height, has_date, has_title),
{
    let title_height: i32 = 72;
    let date_height: i32 = 56;
    let line_spacing: i32 = 12;
    let margin: i32 = 40;
    let mut total: i32 = 0;
    if has_title {
        total = total + title_height;
    }
    if has_date {
        if has_title {
            total = total + line_spacing;
        }
        total = total + date_height;
    }
    let top = frame_height as i32 - margin - total;
    let title_y = if has_date {
        top + date_height + line_spacing
    } else {
        top
    };
    (top, title_y)
}

/// How a photo is turned upright for an EXIF orientation.
#[derive(Debug, Clone, Copy, PartialEq, Eq, Structural)]
pub enum UprightTransform {
    Unchanged,
    FlipHorizontal,
    Rotate180,
    FlipVertical,
    Rotate90ThenFlipHorizontal,
    Rotate90,
    Rotate270ThenFlipHorizontal,
    Rotate270,
}

/// The transform for EXIF orientation `orientation` (1 to 8; any other
/// value leaves the image as it is).
pub open spec fn upright_transform(orientation: u32) -> UprightTransform {
    if orientation == 2 {
        UprightTransform::FlipHorizontal
    } else if orientation == 3 {
        UprightTransform::Rotate180
    } else if orientation == 4 {
        UprightTransform::FlipVertical
    } else if orientation == 5 {
        UprightTransform::Rotate90ThenFlipHorizontal
    } else if orientation == 6 {
        UprightTransform::Rotate90
    } else if orientation == 7 {
        UprightTransform::Rotate270ThenFlipHorizontal
    } else if orientation == 8 {
        UprightTransform::Rotate270
    } else {
        UprightTransform::Unchanged
    }
}

/// The transform that turns a photo with EXIF orientation `orientation` upright.
pub fn orientation_transform(orientation: u32) -> (r: UprightTransform)
    ensures
        r == upright_transform(orientation),
{
    match orientation {
        2 => UprightTransform::FlipHorizontal,
        3 => UprightTransform::Rotate180,
        4 => UprightTransform::FlipVertical,
        5 => UprightTransform::Rotate90ThenFlipHorizontal,
        6 => UprightTransform::Rotate90,
        7 => UprightTransform::Rotate270ThenFlipHorizontal,
        8 => UprightTransform::Rotate270,
        _ => UprightTransform::Unchanged,
    }
}

/// Where the pixel `(x, y)` of a `w` by `h` image goes, with the new size,
/// as `(width, height, x, y)`: turning the image a quarter turn clockwise.
pub open spec fn rotated_quarter(p: (int, int, int, int)) -> (int, int, int, int) {
    (p.1, p.0, p.1 - 1 - p.3, p.2)
}

/// Mirroring left and right.
pub open spec fn mirrored_horizontally(p: (int, int, int, int)) -> (int, int, int, int) {
    (p.0, p.1, p.0 - 1 - p.2, p.3)
}

/// Mirroring top and bottom.
pub open spec fn mirrored_vertically(p: (int, int, int, int)) -> (int, int, int, int) {
    (p.0, p.1, p.2, p.1 - 1 - p.3)
}

/// Where a pixel goes under a transform.
pub open spec fn transformed(t: UprightTransform, p: (int, int, int, int)) -> (
    int,
    int,
    int,
    int,
) {
    match t {
        UprightTransform::Unchanged => p,
        UprightTransform::FlipHorizontal => mirrored_horizontally(p),
        UprightTransform::Rotate180 => rotated_quarter(rotated_quarter(p)),
        UprightTransform::FlipVertical => mirrored_vertically(p),
        UprightTransform::Rotate90ThenFlipHorizontal => mirrored_horizontally(rotated_quarter(p)),
        UprightTransform::Rotate90 => rotated_quarter(p),
        UprightTransform::Rotate270ThenFlipHorizontal => mirrored_horizontally(
            rotated_quarter(rotated_quarter(rotated_quarter(p))),
        ),
        UprightTransform::Rotate270 => rotated_quarter(rotated_quarter(rotated_quarter(p))),
    }
}

/// Where the pixel `(x, y)` of the upright `w` by `h` scene is stored in a
/// photo with EXIF orientation `orientation` (1 to 8), from what the
/// orientation says of the stored image: which side of the scene its first
/// row shows, and which side its first column shows.
pub open spec fn stored_position(orientation: u32, w: int, h: int, x: int, y: int) -> (
    int,
    int,
    int,
    int,
) {
    if orientation == 2 {
        // first row: top; first column: right
        (w, h, w - 1 - x, y)
    } else if orientation == 3 {
        // first row: bottom; first column: right
        (w, h, w - 1 - x, h - 1 - y)
    } else if orientation == 4 {
        // first row: bottom; first column: left
        (w, h, x, h - 1 - y)
    } else if orientation == 5 {
        // first row: left; first column: top
        (h, w, y, x)
    } else if orientation == 6 {
        // first row: right; first column: top
        (h, w, y, w - 1 - x)
    } else if orientation == 7 {
        // first row: right; first column: bottom
        (h, w, h - 1 - y, w - 1 - x)
    } else if orientation == 8 {
        // first row: left; first column: bottom
        (h, w, h - 1 - y, x)
    } else {
        // first row: top; first column: left
        (w, h, x, y)
    }
}

/// The transform chosen for an EXIF orientation puts every pixel of the
/// stored photo back where it is in the scene, in an image of the scene's
/// size: the photo is shown upright.
pub proof fn lemma_transform_makes_photo_upright(
    orientation: u32,
    w: int,
    h: int,
    x: int,
    y: int,
)
    requires
        1 <= orientation <= 8,
        0 <= x < w,
        0 <= y < h,
    ensures
        transformed(upright_transform(orientation), stored_position(orientation, w, h, x, y)) == (
            w,
            h,
            x,
            y,
        ),
{
}

/// The two quarter-turn orientations are undone by opposite turns: applying
/// the transform of one after that of the other leaves every pixel in place.
pub proof fn lemma_quarter_turns_are_opposite(p: (int, int, int, int))
    ensures
        transformed(upright_transform(8), transformed(upright_transform(6), p)) == p,
        transformed(upright_transform(6), transformed(upright_transform(8), p)) == p,
{
}

} // verus!
