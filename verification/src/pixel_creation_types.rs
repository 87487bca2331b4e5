//! Pixel-art projects: validation of a picture against its own dimensions and
//! palette, an estimate of its stored size, and the project store with its
//! version history. Owners and editors are principals, held as their text.
use vstd::prelude::*;
use crate::text::{clone_opt_text, clone_texts, concat_text, decimal, decimal_text, utf8_of, Rank};
use crate::sorted_map::{SortedMap, KeyFields, MapKey, text_key, pair_key, rank_pair, keys_of, map_of, strictly_sorted};
use crate::paging::{skip_take, keep_page};

verus! {

/// Copies a row of palette indices.
fn copy_row(row: &Vec<u16>) -> (r: Vec<u16>)
    ensures
        r@ == row@,
{
    let r = row.clone();
    assert(r@ =~= row@);
    r
}

/// Copies a grid of palette indices.
fn copy_grid(g: &Vec<Vec<u16>>) -> (r: Vec<Vec<u16>>)
    ensures
        grid_view(r@) == grid_view(g@),
{
    let mut out: Vec<Vec<u16>> = Vec::new();
    for i in 0..g.len()
        invariant
            grid_view(out@) == grid_view(g@.subrange(0, i as int)),
    {
        let row = copy_row(&g[i]);
        let ghost before = out@;
        out.push(row);
        proof {
            assert(grid_view(out@) =~= grid_view(before).push(row@));
            assert(grid_view(g@.subrange(0, i + 1)) =~= grid_view(g@.subrange(0, i as int)).push(g@[i as int]@));
        }
    }
    assert(g@.subrange(0, g@.len() as int) =~= g@);
    out
}

/// The rows of a grid, each by its contents.
pub open spec fn grid_view(g: Seq<Vec<u16>>) -> Seq<Seq<u16>> {
    g.map_values(|r: Vec<u16>| r@)
}

/// One frame of an animation.
#[derive(Debug)]
pub struct Frame {
    pub duration_ms: u32,
    pub pixels: Vec<Vec<u16>>,
}

/// A frame as a value.
#[verifier::ext_equal]
pub struct FrameRecord {
    pub duration_ms: u32,
    pub pixels: Seq<Seq<u16>>,
}

impl View for Frame {
    type V = FrameRecord;

    open spec fn view(&self) -> FrameRecord {
        FrameRecord { duration_ms: self.duration_ms, pixels: grid_view(self.pixels@) }
    }
}

impl Clone for Frame {
    fn clone(&self) -> (r: Self)
        ensures
            r@ == self@,
    {
        Frame { duration_ms: self.duration_ms, pixels: copy_grid(&self.pixels) }
    }
}

/// The frames of an animation, each as a value.
pub open spec fn frames_view(f: Seq<Frame>) -> Seq<FrameRecord> {
    f.map_values(|x: Frame| x@)
}

fn copy_frames(f: &Vec<Frame>) -> (r: Vec<Frame>)
    ensures
        frames_view(r@) == frames_view(f@),
{
    let mut out: Vec<Frame> = Vec::new();
    for i in 0..f.len()
        invariant
            frames_view(out@) == frames_view(f@.subrange(0, i as int)),
    {
        let x = f[i].clone();
        let ghost before = out@;
        out.push(x);
        proof {
            assert(frames_view(out@) =~= frames_view(before).push(x@));
            assert(frames_view(f@.subrange(0, i + 1)) =~= frames_view(f@.subrange(0, i as int)).push(f@[i as int]@));
        }
    }
    assert(f@.subrange(0, f@.len() as int) =~= f@);
    out
}

/// Title, description and tags of a picture.
#[derive(Debug)]
pub struct SourceMeta {
    pub title: Option<String>,
    pub description: Option<String>,
    pub tags: Option<Vec<String>>,
}

/// The metadata as a value.
#[verifier::ext_equal]
pub struct MetaRecord {
    pub title: Option<String>,
    pub description: Option<String>,
    pub tags: Option<Seq<String>>,
}

impl View for SourceMeta {
    type V = MetaRecord;

    open spec fn view(&self) -> MetaRecord {
        MetaRecord {
            title: self.title,
            description: self.description,
            tags: match self.tags {
                Some(t) => Some(t@),
                None => None,
            },
        }
    }
}

impl Clone for SourceMeta {
    fn clone(&self) -> (r: Self)
        ensures
            r@ == self@,
    {
        SourceMeta {
            title: clone_opt_text(&self.title),
            description: clone_opt_text(&self.description),
            tags: match &self.tags {
                Some(t) => Some(clone_texts(t)),
                None => None,
            },
        }
    }
}

/// A picture: its size, its palette of colours, its pixels as palette indices in
/// rows, and optionally animation frames and metadata.
#[derive(Debug)]
pub struct PixelArtSource {
    pub width: u32,
    pub height: u32,
    pub palette: Vec<String>,
    pub pixels: Vec<Vec<u16>>,
    pub frames: Option<Vec<Frame>>,
    pub metadata: Option<SourceMeta>,
}

/// A picture as a value.
#[verifier::ext_equal]
pub struct SourceRecord {
    pub width: u32,
    pub height: u32,
    pub palette: Seq<String>,
    pub pixels: Seq<Seq<u16>>,
    pub frames: Option<Seq<FrameRecord>>,
    pub metadata: Option<MetaRecord>,
}

impl View for PixelArtSource {
    type V = SourceRecord;

    open spec fn view(&self) -> SourceRecord {
        SourceRecord {
            width: self.width,
            height: self.height,
            palette: self.palette@,
            pixels: grid_view(self.pixels@),
            frames: match self.frames {
                Some(f) => Some(frames_view(f@)),
                None => None,
            },
            metadata: match self.metadata {
                Some(m) => Some(m@),
                None => None,
            },
        }
    }
}

impl Clone for PixelArtSource {
    fn clone(&self) -> (r: Self)
        ensures
            r@ == self@,
    {
        PixelArtSource {
            width: self.width,
            height: self.height,
            palette: clone_texts(&self.palette),
            pixels: copy_grid(&self.pixels),
            frames: match &self.frames {
                Some(f) => Some(copy_frames(f)),
                None => None,
            },
            metadata: match &self.metadata {
                Some(m) => Some(m.clone()),
                None => None,
            },
        }
    }
}

/// `s` followed by the decimal numeral of `n`.
fn with_num(s: String, n: u64) -> (r: String)
    ensures
        r@ == s@ + decimal(n as nat),
{
    let d = decimal_text(n);
    concat_text(s.as_str(), d.as_str())
}

/// `s` followed by `t`.
fn with_text(s: String, t: &str) -> (r: String)
    ensures
        r@ == s@ + t@,
{
    concat_text(s.as_str(), t)
}

/// The decimal numeral of a count.
pub open spec fn num(n: int) -> Seq<char> {
    decimal(n as nat)
}

/// The first position from `c` on of a palette index that the palette does not
/// have.
pub open spec fn bad_index_from(row: Seq<u16>, palette_len: nat, c: int) -> Option<int>
    decreases row.len() - c,
{
    if c < 0 || c >= row.len() {
        None
    } else if row[c] >= palette_len {
        Some(c)
    } else {
        bad_index_from(row, palette_len, c + 1)
    }
}

/// The message for row `r` of a grid, when it is too wide or too narrow or holds an
/// index that the palette does not have; `frame` names the frame the grid belongs
/// to, if any.
pub open spec fn row_problem(row: Seq<u16>, width: u32, palette_len: nat, r: int, frame: Option<int>) -> Option<Seq<char>> {
    if row.len() != width {
        Some(match frame {
            None => "Row "@ + num(r) + " width "@ + num(row.len() as int) + " doesn't match specified width "@ + num(width as int),
            Some(f) => "Frame "@ + num(f) + " row "@ + num(r) + " width "@ + num(row.len() as int)
                + " doesn't match source width "@ + num(width as int),
        })
    } else {
        match bad_index_from(row, palette_len, 0) {
            None => None,
            Some(c) => Some(match frame {
                None => "Pixel at ("@ + num(r) + ", "@ + num(c) + ") has palette index "@ + num(row[c] as int)
                    + " which exceeds palette size "@ + num(palette_len as int),
                Some(f) => "Frame "@ + num(f) + " pixel at ("@ + num(r) + ", "@ + num(c) + ") has palette index "@
                    + num(row[c] as int) + " which exceeds palette size "@ + num(palette_len as int),
            }),
        }
    }
}

/// The message for the first faulty row of a grid from row `r` on.
pub open spec fn rows_problem(rows: Seq<Seq<u16>>, width: u32, palette_len: nat, r: int, frame: Option<int>) -> Option<Seq<char>>
    decreases rows.len() - r,
{
    if r < 0 || r >= rows.len() {
        None
    } else {
        match row_problem(rows[r], width, palette_len, r, frame) {
            Some(m) => Some(m),
            None => rows_problem(rows, width, palette_len, r + 1, frame),
        }
    }
}

/// The message for the first faulty frame from frame `f` on.
pub open spec fn frames_problem(frames: Seq<FrameRecord>, width: u32, height: u32, palette_len: nat, f: int) -> Option<Seq<char>>
    decreases frames.len() - f,
{
    if f < 0 || f >= frames.len() {
        None
    } else if frames[f].pixels.len() != height {
        Some("Frame "@ + num(f) + " height "@ + num(frames[f].pixels.len() as int) + " doesn't match source height "@
            + num(height as int))
    } else {
        match rows_problem(frames[f].pixels, width, palette_len, 0, Some(f)) {
            Some(m) => Some(m),
            None => frames_problem(frames, width, height, palette_len, f + 1),
        }
    }
}

/// The largest width or height of a canvas.
pub const MAX_CANVAS_SIZE: u32 = 512;

/// The most colours a palette holds.
pub const MAX_PALETTE_COLORS: usize = 256;

/// The most frames an animation holds.
pub const MAX_FRAMES: usize = 60;

/// Whether `c` is a hexadecimal digit.
pub open spec fn hex_digit(c: char) -> bool {
    ('0' <= c && c <= '9') || ('a' <= c && c <= 'f') || ('A' <= c && c <= 'F')
}

/// Whether `s` is a colour written `#RRGGBB` in hexadecimal.
pub open spec fn hex_color(s: Seq<char>) -> bool {
    &&& s.len() == 7
    &&& s[0] == '#'
    &&& forall|i: int| 1 <= i < 7 ==> #[trigger] hex_digit(s[i])
}

/// The first position from `i` on of a palette entry that is no `#RRGGBB` colour.
pub open spec fn bad_color_from(p: Seq<String>, i: int) -> Option<int>
    decreases p.len() - i,
{
    if i < 0 || i >= p.len() {
        None
    } else if !hex_color(p[i]@) {
        Some(i)
    } else {
        bad_color_from(p, i + 1)
    }
}

/// What is wrong with a picture, checked in this order: a zero dimension, a
/// dimension over `MAX_CANVAS_SIZE`, a palette of more than `MAX_PALETTE_COLORS`
/// entries, a palette entry that is no `#RRGGBB` colour, the number of rows, each
/// row in turn (its width, then its indices), more than `MAX_FRAMES` frames, then
/// each frame in turn (its number of rows, then its rows); `None` for a sound
/// picture.
pub open spec fn source_problem(s: SourceRecord) -> Option<Seq<char>> {
    if s.width == 0 || s.height == 0 {
        Some("Width and height must be greater than 0"@)
    } else if s.width > MAX_CANVAS_SIZE || s.height > MAX_CANVAS_SIZE {
        Some("Width and height must not exceed 512"@)
    } else if s.palette.len() > MAX_PALETTE_COLORS {
        Some("Palette size "@ + num(s.palette.len() as int) + " exceeds the maximum of 256 colors"@)
    } else if bad_color_from(s.palette, 0) is Some {
        let i = bad_color_from(s.palette, 0)->0;
        Some("Palette color "@ + num(i) + " is not a #RRGGBB hex color"@)
    } else if s.pixels.len() != s.height {
        Some("Pixels height "@ + num(s.pixels.len() as int) + " doesn't match specified height "@ + num(s.height as int))
    } else {
        match rows_problem(s.pixels, s.width, s.palette.len(), 0, None) {
            Some(m) => Some(m),
            None => match s.frames {
                Some(frames) => if frames.len() > MAX_FRAMES {
                    Some("Frame count "@ + num(frames.len() as int) + " exceeds the maximum of 60 frames"@)
                } else {
                    frames_problem(frames, s.width, s.height, s.palette.len(), 0)
                },
                None => None,
            },
        }
    }
}

/// Whether `s` is a colour written `#RRGGBB` in hexadecimal.
pub fn is_hex_color(s: &str) -> (r: bool)
    ensures
        r == hex_color(s@),
{
    let n = s.unicode_len();
    if n != 7 {
        return false;
    }
    if s.get_char(0) != '#' {
        return false;
    }
    let mut i: usize = 1;
    while i < 7
        invariant
            s@.len() == 7,
            s@[0] == '#',
            1 <= i <= 7,
            forall|j: int| 1 <= j < i ==> #[trigger] hex_digit(s@[j]),
        decreases 7 - i,
    {
        let c = s.get_char(i);
        if !(('0' <= c && c <= '9') || ('a' <= c && c <= 'f') || ('A' <= c && c <= 'F')) {
            assert(!hex_digit(s@[i as int]));
            return false;
        }
        i = i + 1;
    }
    true
}

/// The first position of a palette entry that is no `#RRGGBB` colour.
fn first_bad_color(p: &Vec<String>) -> (r: Option<usize>)
    ensures
        r matches Some(i) ==> bad_color_from(p@, 0) == Some(i as int),
        r is None ==> bad_color_from(p@, 0) is None,
{
    let mut i: usize = 0;
    while i < p.len()
        invariant
            i <= p@.len(),
            bad_color_from(p@, 0) == bad_color_from(p@, i as int),
        decreases p@.len() - i,
    {
        if !is_hex_color(p[i].as_str()) {
            return Some(i);
        }
        i = i + 1;
    }
    None
}

/// Checks row `r` of a grid.
fn check_row(row: &Vec<u16>, width: u32, palette_len: usize, r: usize, frame: Option<usize>) -> (res: Result<(), String>)
    ensures
        match row_problem(row@, width, palette_len as nat, r as int, match frame {
            Some(f) => Some(f as int),
            None => None,
        }) {
            None => res is Ok,
            Some(m) => res matches Err(e) && e@ == m,
        },
{
    let ghost fr: Option<int> = match frame {
        Some(f) => Some(f as int),
        None => None,
    };
    if row.len() as u64 != width as u64 {
        let msg = match frame {
            None => {
                let m = with_num("Row ".to_string(), r as u64);
                let m = with_text(m, " width ");
                let m = with_num(m, row.len() as u64);
                let m = with_text(m, " doesn't match specified width ");
                with_num(m, width as u64)
            },
            Some(f) => {
                let m = with_num("Frame ".to_string(), f as u64);
                let m = with_text(m, " row ");
                let m = with_num(m, r as u64);
                let m = with_text(m, " width ");
                let m = with_num(m, row.len() as u64);
                let m = with_text(m, " doesn't match source width ");
                with_num(m, width as u64)
            },
        };
        return Err(msg);
    }
    let mut c: usize = 0;
    while c < row.len()
        invariant
            c <= row@.len(),
            row@.len() == width,
            bad_index_from(row@, palette_len as nat, 0) == bad_index_from(row@, palette_len as nat, c as int),
        decreases row@.len() - c,
    {
        let pixel = row[c];
        if pixel as usize >= palette_len {
            let msg = match frame {
                None => {
                    let m = with_num("Pixel at (".to_string(), r as u64);
                    let m = with_text(m, ", ");
                    let m = with_num(m, c as u64);
                    let m = with_text(m, ") has palette index ");
                    let m = with_num(m, pixel as u64);
                    let m = with_text(m, " which exceeds palette size ");
                    with_num(m, palette_len as u64)
                },
                Some(f) => {
                    let m = with_num("Frame ".to_string(), f as u64);
                    let m = with_text(m, " pixel at (");
                    let m = with_num(m, r as u64);
                    let m = with_text(m, ", ");
                    let m = with_num(m, c as u64);
                    let m = with_text(m, ") has palette index ");
                    let m = with_num(m, pixel as u64);
                    let m = with_text(m, " which exceeds palette size ");
                    with_num(m, palette_len as u64)
                },
            };
            return Err(msg);
        }
        c = c + 1;
    }
    Ok(())
}

/// Checks the rows of a grid in turn.
fn check_rows(rows: &Vec<Vec<u16>>, width: u32, palette_len: usize, frame: Option<usize>) -> (res: Result<(), String>)
    ensures
        match rows_problem(grid_view(rows@), width, palette_len as nat, 0, match frame {
            Some(f) => Some(f as int),
            None => None,
        }) {
            None => res is Ok,
            Some(m) => res matches Err(e) && e@ == m,
        },
{
    let ghost fr: Option<int> = match frame {
        Some(f) => Some(f as int),
        None => None,
    };
    let ghost g = grid_view(rows@);
    let mut r: usize = 0;
    while r < rows.len()
        invariant
            r <= rows@.len(),
            g == grid_view(rows@),
            fr == (match frame {
                Some(f) => Some(f as int),
                None => None::<int>,
            }),
            rows_problem(g, width, palette_len as nat, 0, fr) == rows_problem(g, width, palette_len as nat, r as int, fr),
        decreases rows@.len() - r,
    {
        proof {
            assert(g[r as int] == rows@[r as int]@);
        }
        match check_row(&rows[r], width, palette_len, r, frame) {
            Ok(()) => {},
            Err(e) => {
                return Err(e);
            },
        }
        r = r + 1;
    }
    Ok(())
}

/// Checks that a picture is sound: both dimensions from 1 to 512, at most 256
/// palette entries, each a `#RRGGBB` colour, as many rows as its height, every row
/// (of the picture and of each frame) as wide as its width, every index within the
/// palette, and at most 60 frames. The error names the first fault, as
/// `source_problem` orders them.
pub fn validate_pixel_art_source(source: &PixelArtSource) -> (r: Result<(), String>)
    ensures
        match source_problem(source@) {
            None => r is Ok,
            Some(m) => r matches Err(e) && e@ == m,
        },
{
    if source.width == 0 || source.height == 0 {
        return Err("Width and height must be greater than 0".to_string());
    }
    if source.width > MAX_CANVAS_SIZE || source.height > MAX_CANVAS_SIZE {
        return Err("Width and height must not exceed 512".to_string());
    }
    if source.palette.len() > MAX_PALETTE_COLORS {
        let m = with_num("Palette size ".to_string(), source.palette.len() as u64);
        return Err(with_text(m, " exceeds the maximum of 256 colors"));
    }
    match first_bad_color(&source.palette) {
        Some(i) => {
            let m = with_num("Palette color ".to_string(), i as u64);
            return Err(with_text(m, " is not a #RRGGBB hex color"));
        },
        None => {},
    }
    if source.pixels.len() as u64 != source.height as u64 {
        let m = with_num("Pixels height ".to_string(), source.pixels.len() as u64);
        let m = with_text(m, " doesn't match specified height ");
        return Err(with_num(m, source.height as u64));
    }
    let palette_len = source.palette.len();
    match check_rows(&source.pixels, source.width, palette_len, None) {
        Ok(()) => {},
        Err(e) => {
            return Err(e);
        },
    }
    match &source.frames {
        Some(frames) => {
            if frames.len() > MAX_FRAMES {
                let m = with_num("Frame count ".to_string(), frames.len() as u64);
                return Err(with_text(m, " exceeds the maximum of 60 frames"));
            }
            let ghost fv = frames_view(frames@);
            assert(source_problem(source@) == frames_problem(fv, source.width, source.height, palette_len as nat, 0));
            let mut f: usize = 0;
            while f < frames.len()
                invariant
                    f <= frames@.len(),
                    fv == frames_view(frames@),
                    source.width > 0,
                    source_problem(source@) == frames_problem(fv, source.width, source.height, palette_len as nat, 0),
                    frames_problem(fv, source.width, source.height, palette_len as nat, 0)
                        == frames_problem(fv, source.width, source.height, palette_len as nat, f as int),
                decreases frames@.len() - f,
            {
                let frame = &frames[f];
                proof {
                    assert(fv[f as int] == frames@[f as int]@);
                    assert(fv[f as int].pixels.len() == frames@[f as int].pixels@.len());
                }
                if frame.pixels.len() as u64 != source.height as u64 {
                    let m = with_num("Frame ".to_string(), f as u64);
                    let m = with_text(m, " height ");
                    let m = with_num(m, frame.pixels.len() as u64);
                    let m = with_text(m, " doesn't match source height ");
                    return Err(with_num(m, source.height as u64));
                }
                match check_rows(&frame.pixels, source.width, palette_len, Some(f)) {
                    Ok(()) => {},
                    Err(e) => {
                        return Err(e);
                    },
                }
                f = f + 1;
            }
            Ok(())
        },
        None => Ok(()),
    }
}

/// The largest payload, in bytes, that a picture may have.
pub const MAX_PAYLOAD_SIZE: usize = 1048576;

/// The number of UTF-8 bytes of a string.
pub open spec fn text_bytes(s: String) -> int {
    utf8_of(s@).len() as int
}

/// The number of UTF-8 bytes of a list of strings.
pub open spec fn texts_bytes(v: Seq<String>) -> int
    decreases v.len(),
{
    if v.len() == 0 {
        0
    } else {
        texts_bytes(v.drop_last()) + text_bytes(v.last())
    }
}

/// The number of UTF-8 bytes of an optional string.
pub open spec fn opt_bytes(s: Option<String>) -> int {
    match s {
        Some(t) => text_bytes(t),
        None => 0,
    }
}

/// The estimated size of the frames of a picture `width` pixels wide: four bytes
/// of duration and two bytes per pixel each.
pub open spec fn frames_size(f: Seq<FrameRecord>, width: u32) -> int
    decreases f.len(),
{
    if f.len() == 0 {
        0
    } else {
        frames_size(f.drop_last(), width) + 4 + f.last().pixels.len() * width * 2
    }
}

/// The estimated serialized size of a picture: eight bytes of dimensions, the
/// bytes of the palette, two bytes per pixel of the picture and of its frames, four
/// bytes per frame, and the bytes of the title, description and tags.
pub open spec fn estimated_size(s: SourceRecord) -> int {
    8 + texts_bytes(s.palette) + s.pixels.len() * s.width * 2 + match s.frames {
        Some(f) => frames_size(f, s.width),
        None => 0,
    } + match s.metadata {
        Some(m) => opt_bytes(m.title) + opt_bytes(m.description) + match m.tags {
            Some(t) => texts_bytes(t),
            None => 0,
        },
        None => 0,
    }
}

proof fn lemma_texts_bytes_prefix(v: Seq<String>, i: int)
    requires
        0 <= i <= v.len(),
    ensures
        0 <= texts_bytes(v.take(i)) <= texts_bytes(v),
    decreases v.len(),
{
    if v.len() > 0 {
        if i == v.len() {
            assert(v.take(i) =~= v);
            lemma_texts_bytes_prefix(v.drop_last(), i - 1);
            assert(v.drop_last().take(i - 1) =~= v.take(i - 1));
        } else {
            lemma_texts_bytes_prefix(v.drop_last(), i);
            assert(v.drop_last().take(i) =~= v.take(i));
        }
    } else {
        assert(v.take(i) =~= v);
    }
}

proof fn lemma_frames_size_prefix(f: Seq<FrameRecord>, width: u32, i: int)
    requires
        0 <= i <= f.len(),
    ensures
        0 <= frames_size(f.take(i), width) <= frames_size(f, width),
    decreases f.len(),
{
    if f.len() > 0 {
        assert(f.last().pixels.len() * width * 2 >= 0) by (nonlinear_arith);
        if i == f.len() {
            assert(f.take(i) =~= f);
            lemma_frames_size_prefix(f.drop_last(), width, i - 1);
            assert(f.drop_last().take(i - 1) =~= f.take(i - 1));
        } else {
            lemma_frames_size_prefix(f.drop_last(), width, i);
            assert(f.drop_last().take(i) =~= f.take(i));
        }
    } else {
        assert(f.take(i) =~= f);
    }
}

/// The number of UTF-8 bytes of a list of strings.
fn count_text_bytes(v: &Vec<String>, bound: usize) -> (n: usize)
    requires
        texts_bytes(v@) <= bound,
    ensures
        n == texts_bytes(v@),
{
    let mut n: usize = 0;
    for i in 0..v.len()
        invariant
            texts_bytes(v@) <= bound,
            n == texts_bytes(v@.take(i as int)),
    {
        proof {
            assert(v@.take(i + 1).drop_last() =~= v@.take(i as int));
            lemma_texts_bytes_prefix(v@, i + 1);
        }
        n = n + v[i].as_str().as_bytes().len();
    }
    assert(v@.take(v@.len() as int) =~= v@);
    n
}

/// The estimated serialized size of a picture, as `estimated_size` defines it.
fn calculate_estimated_size(source: &PixelArtSource) -> (n: usize)
    requires
        estimated_size(source@) <= usize::MAX,
    ensures
        n == estimated_size(source@),
{
    let ghost s = source@;
    let ghost frames_part: int = match s.frames {
        Some(f) => frames_size(f, s.width),
        None => 0,
    };
    let ghost meta_part: int = match s.metadata {
        Some(m) => opt_bytes(m.title) + opt_bytes(m.description) + match m.tags {
            Some(t) => texts_bytes(t),
            None => 0,
        },
        None => 0,
    };
    let ghost pixel_part: int = s.pixels.len() * s.width * 2;
    proof {
        lemma_texts_bytes_prefix(s.palette, 0);
        assert(pixel_part >= 0) by (nonlinear_arith)
            requires
                pixel_part == s.pixels.len() * s.width * 2,
        ;
        match s.frames {
            Some(f) => lemma_frames_size_prefix(f, s.width, 0),
            None => {},
        }
        assert(s.palette.take(0) =~= Seq::<String>::empty());
        match s.metadata {
            Some(m) => match m.tags {
                Some(t) => {
                    lemma_texts_bytes_prefix(t, 0);
                    assert(t.take(0) =~= Seq::<String>::empty());
                },
                None => {},
            },
            None => {},
        }
    }
    let mut size: usize = 8;
    size = size + count_text_bytes(&source.palette, usize::MAX - 8);
    let rows = source.pixels.len();
    let pixels = rows * (source.width as usize) * 2;
    size = size + pixels;
    match &source.frames {
        Some(frames) => {
            let ghost fv = frames_view(frames@);
            let ghost base: int = size as int;
            for i in 0..frames.len()
                invariant
                    fv == frames_view(frames@),
                    base + frames_size(fv, s.width) <= usize::MAX,
                    s.width == source.width,
                    size == base + frames_size(fv.take(i as int), s.width),
            {
                proof {
                    assert(fv.take(i + 1).drop_last() =~= fv.take(i as int));
                    lemma_frames_size_prefix(fv, s.width, i + 1);
                    assert(fv[i as int].pixels.len() == frames@[i as int].pixels@.len());
                }
                let part = frames[i].pixels.len() * (source.width as usize) * 2;
                size = size + 4 + part;
            }
            assert(fv.take(frames@.len() as int) =~= fv);
        },
        None => {},
    }
    match &source.metadata {
        Some(meta) => {
            match &meta.title {
                Some(t) => {
                    size = size + t.as_str().as_bytes().len();
                },
                None => {},
            }
            match &meta.description {
                Some(d) => {
                    size = size + d.as_str().as_bytes().len();
                },
                None => {},
            }
            match &meta.tags {
                Some(tags) => {
                    size = size + count_text_bytes(tags, usize::MAX - size);
                },
                None => {},
            }
        },
        None => {},
    }
    size
}

/// The message for a picture whose estimated size is too large.
pub open spec fn payload_message(size: int) -> Seq<char> {
    "Payload size "@ + num(size) + " bytes exceeds maximum allowed size "@ + num(MAX_PAYLOAD_SIZE as int) + " bytes"@
}

/// Checks that the estimated size of a picture is at most `MAX_PAYLOAD_SIZE`.
pub fn validate_payload_size(source: &PixelArtSource) -> (r: Result<(), String>)
    requires
        estimated_size(source@) <= usize::MAX,
    ensures
        estimated_size(source@) <= MAX_PAYLOAD_SIZE ==> r is Ok,
        estimated_size(source@) > MAX_PAYLOAD_SIZE ==> (r matches Err(e) && e@ == payload_message(estimated_size(source@))),
{
    let size = calculate_estimated_size(source);
    if size > MAX_PAYLOAD_SIZE {
        let m = with_num("Payload size ".to_string(), size as u64);
        let m = with_text(m, " bytes exceeds maximum allowed size ");
        let m = with_num(m, MAX_PAYLOAD_SIZE as u64);
        return Err(with_text(m, " bytes"));
    }
    Ok(())
}

/// One saved version of a project.
#[derive(Debug)]
pub struct Version {
    pub version_id: String,
    pub created_at: u64,
    pub editor: String,
    pub message: Option<String>,
    pub source: PixelArtSource,
}

/// A version as a value.
#[verifier::ext_equal]
pub struct VersionRecord {
    pub version_id: String,
    pub created_at: u64,
    pub editor: String,
    pub message: Option<String>,
    pub source: SourceRecord,
}

impl View for Version {
    type V = VersionRecord;

    open spec fn view(&self) -> VersionRecord {
        VersionRecord {
            version_id: self.version_id,
            created_at: self.created_at,
            editor: self.editor,
            message: self.message,
            source: self.source@,
        }
    }
}

impl Clone for Version {
    fn clone(&self) -> (r: Self)
        ensures
            r@ == self@,
    {
        Version {
            version_id: self.version_id.clone(),
            created_at: self.created_at,
            editor: self.editor.clone(),
            message: clone_opt_text(&self.message),
            source: self.source.clone(),
        }
    }
}

/// The versions of a history, each as a value.
pub open spec fn versions_view(v: Seq<Version>) -> Seq<VersionRecord> {
    v.map_values(|x: Version| x@)
}

fn copy_versions(v: &Vec<Version>) -> (r: Vec<Version>)
    ensures
        versions_view(r@) == versions_view(v@),
{
    let mut out: Vec<Version> = Vec::new();
    for i in 0..v.len()
        invariant
            versions_view(out@) == versions_view(v@.subrange(0, i as int)),
    {
        let x = v[i].clone();
        let ghost before = out@;
        out.push(x);
        proof {
            assert(versions_view(out@) =~= versions_view(before).push(x@));
            assert(versions_view(v@.subrange(0, i + 1)) =~= versions_view(v@.subrange(0, i as int)).push(v@[i as int]@));
        }
    }
    assert(v@.subrange(0, v@.len() as int) =~= v@);
    out
}

/// A pixel-art project: its owner, its current version and the append-only history
/// of all its versions, the current one last.
#[derive(Debug)]
pub struct Project {
    pub project_id: String,
    pub owner: String,
    pub created_at: u64,
    pub updated_at: u64,
    pub current_version: Version,
    pub history: Vec<Version>,
}

/// A project as a value.
#[verifier::ext_equal]
pub struct ProjectRecord {
    pub project_id: String,
    pub owner: String,
    pub created_at: u64,
    pub updated_at: u64,
    pub current_version: VersionRecord,
    pub history: Seq<VersionRecord>,
}

impl View for Project {
    type V = ProjectRecord;

    open spec fn view(&self) -> ProjectRecord {
        ProjectRecord {
            project_id: self.project_id,
            owner: self.owner,
            created_at: self.created_at,
            updated_at: self.updated_at,
            current_version: self.current_version@,
            history: versions_view(self.history@),
        }
    }
}

impl Clone for Project {
    fn clone(&self) -> (r: Self)
        ensures
            r@ == self@,
    {
        Project {
            project_id: self.project_id.clone(),
            owner: self.owner.clone(),
            created_at: self.created_at,
            updated_at: self.updated_at,
            current_version: self.current_version.clone(),
            history: copy_versions(&self.history),
        }
    }
}

/// The key of the owner index: owner, then project.
#[derive(Debug)]
pub struct ProjectOwnerKey {
    pub owner: String,
    pub project_id: String,
}

impl MapKey for ProjectOwnerKey {
    open spec fn key_fields(&self) -> KeyFields {
        pair_key(self.owner@, self.project_id@)
    }

    fn rank_key(&self, other: &Self) -> (r: Rank) {
        rank_pair(self.owner.as_str(), self.project_id.as_str(), other.owner.as_str(), other.project_id.as_str())
    }
}

/// A frame in the export format.
#[derive(Debug)]
pub struct CompactFrame {
    pub duration_ms: u32,
    pub pixels: Vec<Vec<u16>>,
}

/// A picture in the export format for devices: its pixels when it has no frames,
/// its frames otherwise.
#[derive(Debug)]
pub struct CompactPixelArt {
    pub art_type: String,
    pub width: u32,
    pub height: u32,
    pub palette: Vec<String>,
    pub pixels: Option<Vec<Vec<u16>>>,
    pub frames: Option<Vec<CompactFrame>>,
}

/// The export of a picture, as a value.
#[verifier::ext_equal]
pub struct CompactRecord {
    pub art_type: Seq<char>,
    pub width: u32,
    pub height: u32,
    pub palette: Seq<String>,
    pub pixels: Option<Seq<Seq<u16>>>,
    pub frames: Option<Seq<FrameRecord>>,
}

impl View for CompactPixelArt {
    type V = CompactRecord;

    open spec fn view(&self) -> CompactRecord {
        CompactRecord {
            art_type: self.art_type@,
            width: self.width,
            height: self.height,
            palette: self.palette@,
            pixels: match self.pixels {
                Some(p) => Some(grid_view(p@)),
                None => None,
            },
            frames: match self.frames {
                Some(f) => Some(f@.map_values(|x: CompactFrame| FrameRecord { duration_ms: x.duration_ms, pixels: grid_view(x.pixels@) })),
                None => None,
            },
        }
    }
}

/// The export of a picture: its frames when it has any, its pixels otherwise.
pub open spec fn compact_of(s: SourceRecord) -> CompactRecord {
    CompactRecord {
        art_type: "pixel_art@1"@,
        width: s.width,
        height: s.height,
        palette: s.palette,
        pixels: if s.frames is Some { None } else { Some(s.pixels) },
        frames: s.frames,
    }
}

/// The time in the unit that projects are stamped with.
pub open spec fn project_time(now: u64) -> u64 {
    now / 1000000
}

/// The project that `create_project` makes.
pub open spec fn new_project(owner: String, source: SourceRecord, message: Option<String>, now: u64, project_id: String, version_id: String) -> ProjectRecord {
    let t = project_time(now);
    let v = VersionRecord { version_id, created_at: t, editor: owner, message, source };
    ProjectRecord { project_id, owner, created_at: t, updated_at: t, current_version: v, history: seq![v] }
}

/// `p` with `v` saved as its new current version at `now`.
pub open spec fn with_version(p: ProjectRecord, v: VersionRecord, now: u64) -> ProjectRecord {
    ProjectRecord { current_version: v, history: p.history.push(v), updated_at: project_time(now), ..p }
}

/// A new project's current version is the last of its history, and saving a
/// version keeps it so, appending to the history without changing what was in it.
pub proof fn lemma_current_is_latest(owner: String, source: SourceRecord, message: Option<String>, now: u64, project_id: String, version_id: String, p: ProjectRecord, v: VersionRecord, later: u64)
    requires
        p.history.len() > 0,
        p.current_version == p.history.last(),
    ensures
        new_project(owner, source, message, now, project_id, version_id).current_version == new_project(
            owner,
            source,
            message,
            now,
            project_id,
            version_id,
        ).history.last(),
        with_version(p, v, later).current_version == with_version(p, v, later).history.last(),
        with_version(p, v, later).history.take(p.history.len() as int) == p.history,
        with_version(p, v, later).owner == p.owner,
{
    assert(with_version(p, v, later).history.take(p.history.len() as int) =~= p.history);
}

/// The first version of `history` with id `version_id`.
pub open spec fn first_version(history: Seq<VersionRecord>, version_id: Seq<char>, i: int) -> bool {
    &&& 0 <= i < history.len()
    &&& history[i].version_id@ == version_id
    &&& forall|j: int| 0 <= j < i ==> history[j].version_id@ != version_id
}

/// The version of `p` with id `version_id`: the current version when it has that
/// id, else the first version of the history with it.
pub open spec fn find_version(p: ProjectRecord, version_id: Seq<char>) -> Option<VersionRecord> {
    if p.current_version.version_id@ == version_id {
        Some(p.current_version)
    } else if exists|i: int| first_version(p.history, version_id, i) {
        Some(p.history[choose|i: int| first_version(p.history, version_id, i)])
    } else {
        None
    }
}

/// The projects of a store walk, in order.
pub open spec fn project_values(ps: Seq<(KeyFields, ProjectRecord)>) -> Seq<ProjectRecord> {
    ps.map_values(|e: (KeyFields, ProjectRecord)| e.1)
}

/// The projects of `owner`, in the order of the walk.
pub open spec fn owned_projects(ps: Seq<(KeyFields, ProjectRecord)>, owner: Seq<char>) -> Seq<ProjectRecord> {
    project_values(ps).filter(|p: ProjectRecord| p.owner@ == owner)
}

/// What the project store holds: the projects in the order of their ids, and the
/// index of (owner, project) pairs.
#[verifier::ext_equal]
pub struct PixelView {
    pub projects: Seq<(KeyFields, ProjectRecord)>,
    pub owners: Map<KeyFields, ()>,
}

impl PixelView {
    /// The project with id `id`.
    pub open spec fn project(self, id: Seq<char>) -> Option<ProjectRecord> {
        if map_of(self.projects).contains_key(text_key(id)) {
            Some(map_of(self.projects)[text_key(id)])
        } else {
            None
        }
    }
}

/// The pixel-art projects, by id, with the owner index.
pub struct ProjectStore {
    projects: SortedMap<String, Project>,
    owner_index: SortedMap<ProjectOwnerKey, ()>,
}

impl View for ProjectStore {
    type V = PixelView;

    closed spec fn view(&self) -> PixelView {
        PixelView {
            projects: self.projects.pairs().map_values(|e: (KeyFields, Project)| (e.0, e.1@)),
            owners: self.owner_index.as_map(),
        }
    }
}

impl ProjectStore {
    pub closed spec fn wf(&self) -> bool {
        &&& self.projects.wf()
        &&& self.owner_index.wf()
    }

    /// The store's walk has strictly ascending keys, and holds one project per id.
    proof fn lemma_walk(&self)
        requires
            self.wf(),
        ensures
            strictly_sorted(keys_of(self@.projects)),
            map_of(self@.projects) == self.projects.as_map().map_values(|p: Project| p@),
    {
        self.projects.lemma_pairs();
        let ps = self.projects.pairs();
        assert(keys_of(self@.projects) =~= keys_of(ps));
        assert forall|k: KeyFields| self.projects.as_map().contains_key(k) implies #[trigger] map_of(self@.projects)[k]
            == self.projects.as_map()[k]@ by {
            let i = keys_of(ps).index_of(k);
            assert(keys_of(self@.projects).index_of(k) == i);
        }
        assert(map_of(self@.projects) =~= self.projects.as_map().map_values(|p: Project| p@));
    }

    /// The projects are walked in strictly ascending order of their ids.
    pub proof fn lemma_sorted(&self)
        requires
            self.wf(),
        ensures
            strictly_sorted(keys_of(self@.projects)),
    {
        self.lemma_walk();
    }

    /// Filing a project under a new id (a successful `create_project`) adds one
    /// to the project count; filing one under an id already there keeps it.
    pub proof fn lemma_count_after_insert(s0: ProjectStore, s1: ProjectStore, k: KeyFields, p: ProjectRecord)
        requires
            s0.wf(),
            s1.wf(),
            map_of(s1@.projects) == map_of(s0@.projects).insert(k, p),
        ensures
            s1@.projects.len() == s0@.projects.len() + if map_of(s0@.projects).contains_key(k) { 0int } else { 1int },
    {
        s0.lemma_sorted();
        s1.lemma_sorted();
        crate::sorted_map::lemma_len_after_insert(s0@.projects, s1@.projects, k, p);
    }

    /// Removing a project that is there (`delete_project` answering `true`)
    /// takes one from the project count.
    pub proof fn lemma_count_after_remove(s0: ProjectStore, s1: ProjectStore, k: KeyFields)
        requires
            s0.wf(),
            s1.wf(),
            map_of(s1@.projects) == map_of(s0@.projects).remove(k),
        ensures
            s1@.projects.len() == s0@.projects.len() - if map_of(s0@.projects).contains_key(k) { 1int } else { 0int },
    {
        s0.lemma_sorted();
        s1.lemma_sorted();
        crate::sorted_map::lemma_len_after_remove(s0@.projects, s1@.projects, k);
    }

    pub fn new() -> (s: Self)
        ensures
            s.wf(),
            s@.projects == Seq::<(KeyFields, ProjectRecord)>::empty(),
            s@.owners == Map::<KeyFields, ()>::empty(),
    {
        let s = ProjectStore { projects: SortedMap::new(), owner_index: SortedMap::new() };
        assert(s@.projects =~= Seq::<(KeyFields, ProjectRecord)>::empty());
        s
    }

    /// The project with id `id`.
    fn find(&self, id: &String) -> (r: Option<&Project>)
        requires
            self.wf(),
        ensures
            r is Some == self@.project(id@) is Some,
            r matches Some(p) ==> Some(p@) == self@.project(id@),
    {
        proof {
            self.lemma_walk();
        }
        self.projects.get(id)
    }

    /// Makes a project of `caller` from a sound picture, with its first version,
    /// stamped at `now`; `project_id` and `version_id` are the fresh ids it gets. A
    /// project already under `project_id` is replaced.
    pub fn create_project(
        &mut self,
        caller: String,
        source: PixelArtSource,
        message: Option<String>,
        now: u64,
        project_id: String,
        version_id: String,
    ) -> (r: Result<String, String>)
        requires
            old(self).wf(),
            estimated_size(source@) <= usize::MAX,
        ensures
            final(self).wf(),
            source_problem(source@) matches Some(m) ==> (r matches Err(e) && e@ == m) && final(self)@ == old(self)@,
            source_problem(source@) is None && estimated_size(source@) > MAX_PAYLOAD_SIZE ==> (r matches Err(e) && e@
                == payload_message(estimated_size(source@))) && final(self)@ == old(self)@,
            source_problem(source@) is None && estimated_size(source@) <= MAX_PAYLOAD_SIZE ==> {
                &&& r == Ok::<String, String>(project_id)
                &&& map_of(final(self)@.projects) == map_of(old(self)@.projects).insert(
                    text_key(project_id@),
                    new_project(caller, source@, message, now, project_id, version_id),
                )
                &&& final(self)@.owners == old(self)@.owners.insert(pair_key(caller@, project_id@), ())
            },
    {
        match validate_pixel_art_source(&source) {
            Ok(()) => {},
            Err(e) => {
                return Err(e);
            },
        }
        match validate_payload_size(&source) {
            Ok(()) => {},
            Err(e) => {
                return Err(e);
            },
        }
        let t = now / 1000000;
        let first = Version { version_id: version_id, created_at: t, editor: caller.clone(), message, source };
        let project = Project {
            project_id: project_id.clone(),
            owner: caller.clone(),
            created_at: t,
            updated_at: t,
            current_version: first.clone(),
            history: vec![first],
        };
        let ghost pv = project@;
        proof {
            old(self).lemma_walk();
            assert(pv.history =~= seq![pv.current_version]);
        }
        self.projects.insert(project_id.clone(), project);
        self.owner_index.insert(ProjectOwnerKey { owner: caller, project_id: project_id.clone() }, ());
        proof {
            self.lemma_walk();
            assert(map_of(self@.projects) =~= map_of(old(self)@.projects).insert(text_key(project_id@), pv));
        }
        Ok(project_id)
    }

    /// Saves a sound picture as the new current version of project `project_id`,
    /// stamped at `now` and appended to its history; `version_id` is the fresh id it
    /// gets. Only the owner may save, and when `if_match_version` is given the
    /// current version must carry that id.
    pub fn save_version(
        &mut self,
        caller: String,
        project_id: String,
        source: PixelArtSource,
        message: Option<String>,
        if_match_version: Option<String>,
        now: u64,
        version_id: String,
    ) -> (r: Result<String, String>)
        requires
            old(self).wf(),
            estimated_size(source@) <= usize::MAX,
        ensures
            final(self).wf(),
            r is Err ==> final(self)@ == old(self)@,
            source_problem(source@) matches Some(m) ==> (r matches Err(e) && e@ == m),
            source_problem(source@) is None && estimated_size(source@) > MAX_PAYLOAD_SIZE ==> (r matches Err(e) && e@
                == payload_message(estimated_size(source@))),
            source_problem(source@) is None && estimated_size(source@) <= MAX_PAYLOAD_SIZE ==> match old(self)@.project(
                project_id@,
            ) {
                None => r matches Err(e) && e@ == "Project not found"@,
                Some(p) => if p.owner@ != caller@ {
                    r matches Err(e) && e@ == "Only project owner can save new versions"@
                } else if if_match_version is Some && if_match_version->0@ != p.current_version.version_id@ {
                    r matches Err(e) && e@ == "Version mismatch: expected "@ + if_match_version->0@ + ", current "@
                        + p.current_version.version_id@
                } else {
                    let v = VersionRecord { version_id, created_at: project_time(now), editor: caller, message, source: source@ };
                    &&& r == Ok::<String, String>(version_id)
                    &&& map_of(final(self)@.projects) == map_of(old(self)@.projects).insert(
                        text_key(project_id@),
                        with_version(p, v, now),
                    )
                    &&& final(self)@.owners == old(self)@.owners
                },
            },
    {
        match validate_pixel_art_source(&source) {
            Ok(()) => {},
            Err(e) => {
                return Err(e);
            },
        }
        match validate_payload_size(&source) {
            Ok(()) => {},
            Err(e) => {
                return Err(e);
            },
        }
        let t = now / 1000000;
        let mut project = match self.find(&project_id) {
            Some(p) => p.clone(),
            None => {
                return Err("Project not found".to_string());
            },
        };
        if project.owner != caller {
            return Err("Only project owner can save new versions".to_string());
        }
        match &if_match_version {
            Some(expected) => {
                if project.current_version.version_id != *expected {
                    let m = concat_text("Version mismatch: expected ", expected.as_str());
                    let m = with_text(m, ", current ");
                    return Err(with_text(m, project.current_version.version_id.as_str()));
                }
            },
            None => {},
        }
        let ghost old_p = project@;
        let version = Version { version_id: version_id.clone(), created_at: t, editor: caller, message, source };
        project.current_version = version.clone();
        let ghost before = project.history@;
        project.history.push(version);
        project.updated_at = t;
        let ghost pv = project@;
        proof {
            old(self).lemma_walk();
            assert(versions_view(project.history@) =~= versions_view(before).push(project.current_version@));
            assert(pv == with_version(old_p, project.current_version@, now));
        }
        self.projects.insert(project_id, project);
        proof {
            self.lemma_walk();
            assert(map_of(self@.projects) =~= map_of(old(self)@.projects).insert(text_key(project_id@), pv));
        }
        Ok(version_id)
    }

    /// The project with id `project_id`.
    pub fn get_project(&self, project_id: String) -> (r: Option<Project>)
        requires
            self.wf(),
        ensures
            r is Some == self@.project(project_id@) is Some,
            r matches Some(p) ==> Some(p@) == self@.project(project_id@),
    {
        match self.find(&project_id) {
            Some(p) => Some(p.clone()),
            None => None,
        }
    }

    /// The version `version_id` of project `project_id`: the current version when it
    /// has that id, else the first version of the history with it.
    pub fn get_version(&self, project_id: String, version_id: String) -> (r: Option<Version>)
        requires
            self.wf(),
        ensures
            match self@.project(project_id@) {
                None => r is None,
                Some(p) => if p.current_version.version_id@ == version_id@ {
                    r matches Some(v) && v@ == p.current_version
                } else {
                    &&& r is None <==> forall|j: int| 0 <= j < p.history.len() ==> p.history[j].version_id@ != version_id@
                    &&& r matches Some(v) ==> exists|i: int| first_version(p.history, version_id@, i) && v@ == p.history[i]
                },
            },
    {
        match self.find(&project_id) {
            None => None,
            Some(p) => {
                if p.current_version.version_id == version_id {
                    return Some(p.current_version.clone());
                }
                for i in 0..p.history.len()
                    invariant
                        Some(p@) == self@.project(project_id@),
                        p.current_version.version_id@ != version_id@,
                        forall|j: int| 0 <= j < i ==> p.history@[j].version_id@ != version_id@,
                {
                    if p.history[i].version_id == version_id {
                        let found = p.history[i].clone();
                        proof {
                            let h = versions_view(p.history@);
                            assert(h[i as int] == p.history@[i as int]@);
                            assert forall|j: int| 0 <= j < i implies h[j].version_id@ != version_id@ by {
                                assert(h[j] == p.history@[j]@);
                            }
                            assert(first_version(h, version_id@, i as int));
                            assert(found@ == h[i as int]);
                        }
                        return Some(found);
                    }
                }
                proof {
                    assert forall|j: int| 0 <= j < p.history@.len() implies versions_view(p.history@)[j].version_id@
                        != version_id@ by {
                        assert(versions_view(p.history@)[j] == p.history@[j]@);
                    }
                }
                None
            },
        }
    }

    /// The picture of the current version of project `project_id`.
    pub fn get_current_source(&self, project_id: String) -> (r: Option<PixelArtSource>)
        requires
            self.wf(),
        ensures
            match self@.project(project_id@) {
                None => r is None,
                Some(p) => r matches Some(s) && s@ == p.current_version.source,
            },
    {
        match self.find(&project_id) {
            Some(p) => Some(p.current_version.source.clone()),
            None => None,
        }
    }

    /// The export of version `version_id` of project `project_id`, or of its current
    /// version when no version is named.
    pub fn export_for_device(&self, project_id: String, version_id: Option<String>) -> (r: Result<CompactPixelArt, String>)
        requires
            self.wf(),
        ensures
            match version_id {
                Some(vid) => match self@.project(project_id@) {
                    Some(p) if find_version(p, vid@) is Some => r matches Ok(c) && c@ == compact_of(
                        find_version(p, vid@)->0.source,
                    ),
                    _ => r matches Err(e) && e@ == "Version not found"@,
                },
                None => match self@.project(project_id@) {
                    Some(p) => r matches Ok(c) && c@ == compact_of(p.current_version.source),
                    None => r matches Err(e) && e@ == "Project not found"@,
                },
            },
    {
        let source = match version_id {
            Some(vid) => match self.get_version(project_id, vid) {
                Some(v) => v.source,
                None => {
                    return Err("Version not found".to_string());
                },
            },
            None => match self.get_current_source(project_id) {
                Some(s) => s,
                None => {
                    return Err("Project not found".to_string());
                },
            },
        };
        let compact = match &source.frames {
            Some(frames) => {
                let mut out: Vec<CompactFrame> = Vec::new();
                for i in 0..frames.len()
                    invariant
                        out@.map_values(|x: CompactFrame| FrameRecord { duration_ms: x.duration_ms, pixels: grid_view(x.pixels@) })
                            == frames_view(frames@.subrange(0, i as int)),
                {
                    let f = CompactFrame { duration_ms: frames[i].duration_ms, pixels: copy_grid(&frames[i].pixels) };
                    let ghost before = out@;
                    out.push(f);
                    proof {
                        assert(out@.map_values(|x: CompactFrame| FrameRecord { duration_ms: x.duration_ms, pixels: grid_view(x.pixels@) })
                            =~= before.map_values(|x: CompactFrame| FrameRecord { duration_ms: x.duration_ms, pixels: grid_view(x.pixels@) }).push(frames@[i as int]@));
                        assert(frames_view(frames@.subrange(0, i + 1)) =~= frames_view(frames@.subrange(0, i as int)).push(frames@[i as int]@));
                    }
                }
                assert(frames@.subrange(0, frames@.len() as int) =~= frames@);
                CompactPixelArt {
                    art_type: "pixel_art@1".to_string(),
                    width: source.width,
                    height: source.height,
                    palette: clone_texts(&source.palette),
                    pixels: None,
                    frames: Some(out),
                }
            },
            None => CompactPixelArt {
                art_type: "pixel_art@1".to_string(),
                width: source.width,
                height: source.height,
                palette: clone_texts(&source.palette),
                pixels: Some(copy_grid(&source.pixels)),
                frames: None,
            },
        };
        Ok(compact)
    }

    /// The projects of `owner`, in the order of their ids.
    fn projects_of(&self, owner: &String) -> (r: Vec<Project>)
        requires
            self.wf(),
        ensures
            r@.map_values(|p: Project| p@) == owned_projects(self@.projects, owner@),
    {
        let n = self.projects.len();
        let ghost vals = project_values(self@.projects);
        let mut out: Vec<Project> = Vec::new();
        for i in 0..n
            invariant
                n == self.projects.key_seq().len(),
                vals == project_values(self@.projects),
                vals.len() == n,
                out@.map_values(|p: Project| p@) == vals.take(i as int).filter(|p: ProjectRecord| p.owner@ == owner@),
        {
            proof {
                reveal_with_fuel(Seq::<_>::filter, 1);
                assert(vals.take(i + 1).drop_last() =~= vals.take(i as int));
            }
            let (_, p) = self.projects.entry_at(i);
            assert(vals[i as int] == p@);
            if p.owner == *owner {
                let c = p.clone();
                let ghost before = out@;
                out.push(c);
                proof {
                    assert(out@.map_values(|p: Project| p@) =~= before.map_values(|p: Project| p@).push(c@));
                }
            }
        }
        assert(vals.take(n as int) =~= vals);
        out
    }

    /// Page `page` of the projects of `owner`, `page_size` to a page, in the order of
    /// their ids.
    pub fn list_projects_by_owner(&self, owner: String, page: u32, page_size: u32) -> (r: Vec<Project>)
        requires
            self.wf(),
            page * page_size <= u32::MAX,
        ensures
            r@.map_values(|p: Project| p@) == skip_take(
                owned_projects(self@.projects, owner@),
                page * page_size,
                page_size as int,
            ),
    {
        let all = self.projects_of(&owner);
        let ghost owned = all@;
        let skip = page * page_size;
        let out = keep_page(all, skip as usize, page_size as usize);
        assert(out@.map_values(|p: Project| p@) =~= skip_take(owned.map_values(|p: Project| p@), skip as int, page_size as int));
        out
    }

    /// The number of projects of `owner`.
    pub fn get_project_count_by_owner(&self, owner: String) -> (n: u64)
        requires
            self.wf(),
        ensures
            n == owned_projects(self@.projects, owner@).len(),
    {
        let all = self.projects_of(&owner);
        assert(all@.len() == all@.map_values(|p: Project| p@).len());
        all.len() as u64
    }

    /// Deletes project `project_id` of `caller`; another owner's project is refused.
    pub fn delete_project(&mut self, caller: String, project_id: String) -> (r: Result<bool, String>)
        requires
            old(self).wf(),
        ensures
            final(self).wf(),
            match old(self)@.project(project_id@) {
                None => r == Ok::<bool, String>(false) && final(self)@ == old(self)@,
                Some(p) => if p.owner@ != caller@ {
                    (r matches Err(e) && e@ == "Only project owner can delete the project"@) && final(self)@ == old(self)@
                } else {
                    &&& r == Ok::<bool, String>(true)
                    &&& map_of(final(self)@.projects) == map_of(old(self)@.projects).remove(text_key(project_id@))
                    &&& final(self)@.owners == old(self)@.owners.remove(pair_key(caller@, project_id@))
                },
            },
    {
        match self.find(&project_id) {
            None => {
                return Ok(false);
            },
            Some(p) => {
                if p.owner != caller {
                    return Err("Only project owner can delete the project".to_string());
                }
            },
        }
        proof {
            old(self).lemma_walk();
        }
        self.projects.remove(&project_id);
        self.owner_index.remove(&ProjectOwnerKey { owner: caller, project_id: project_id.clone() });
        proof {
            self.lemma_walk();
            assert(map_of(self@.projects) =~= map_of(old(self)@.projects).remove(text_key(project_id@)));
        }
        Ok(true)
    }

    /// At most `limit` projects from position `offset` of the walk on.
    pub fn get_projects_paginated(&self, offset: u64, limit: usize) -> (r: Vec<Project>)
        requires
            self.wf(),
        ensures
            r@.map_values(|p: Project| p@) == skip_take(project_values(self@.projects), offset as int, limit as int),
    {
        let n = self.projects.len();
        let ghost vals = project_values(self@.projects);
        let mut out: Vec<Project> = Vec::new();
        if offset >= n as u64 {
            assert(out@.map_values(|p: Project| p@) =~= skip_take(vals, offset as int, limit as int));
            return out;
        }
        let start = offset as usize;
        let end = if limit < n - start { start + limit } else { n };
        let mut i = start;
        while i < end
            invariant
                start <= i <= end <= n,
                n == self.projects.key_seq().len(),
                vals == project_values(self@.projects),
                vals.len() == n,
                out@.map_values(|p: Project| p@) == vals.subrange(start as int, i as int),
            decreases end - i,
        {
            let (_, p) = self.projects.entry_at(i);
            assert(vals[i as int] == p@);
            let c = p.clone();
            let ghost before = out@;
            out.push(c);
            proof {
                assert(out@.map_values(|p: Project| p@) =~= before.map_values(|p: Project| p@).push(c@));
                assert(vals.subrange(start as int, i + 1) =~= vals.subrange(start as int, i as int).push(vals[i as int]));
            }
            i = i + 1;
        }
        assert(vals.subrange(start as int, end as int) =~= skip_take(vals, offset as int, limit as int));
        out
    }

    /// The number of projects.
    pub fn get_total_project_count(&self) -> (n: u64)
        requires
            self.wf(),
        ensures
            n == self@.projects.len(),
    {
        self.projects.len() as u64
    }
}

/// What the export of a picture carries: its size and palette; when it has
/// frames, exactly those frames (as many, each with its duration and pixel grid)
/// and no still pixels; when it has none, its still pixels and no frames.
pub proof fn lemma_export_carries_the_animation(s: SourceRecord)
    ensures
        compact_of(s).art_type == "pixel_art@1"@,
        compact_of(s).width == s.width,
        compact_of(s).height == s.height,
        compact_of(s).palette == s.palette,
        s.frames matches Some(fs) ==> {
            &&& compact_of(s).pixels is None
            &&& compact_of(s).frames matches Some(gs) && gs.len() == fs.len() && forall|i: int| 0 <= i < fs.len() ==> {
                &&& (#[trigger] gs[i]).duration_ms == fs[i].duration_ms
                &&& gs[i].pixels == fs[i].pixels
            }
        },
        s.frames is None ==> compact_of(s).pixels == Some(s.pixels) && compact_of(s).frames is None,
{
}

} // verus!
