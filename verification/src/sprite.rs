//! A sprite is a fixed-size grid of cells, each a glyph and a colour attribute.

use crate::color::FG_BLACK;
use crate::pixel::PIXEL_EMPTY;
use vstd::prelude::*;

verus! {

/// A 2D sprite consisting of glyphs and color values, stored row by row.
#[derive(Debug)]
pub struct Sprite {
    /// Width of the sprite in characters.
    pub width: usize,
    /// Height of the sprite in characters.
    pub height: usize,
    glyphs: Vec<u16>,
    colors: Vec<u16>,
}

/// What a sprite is: its size and its two grids, row by row.
pub struct SpriteView {
    pub width: nat,
    pub height: nat,
    pub glyphs: Seq<u16>,
    pub colors: Seq<u16>,
}

impl SpriteView {
    /// Both grids hold exactly `width * height` cells.
    pub open spec fn wf(self) -> bool {
        &&& self.glyphs.len() == self.width * self.height
        &&& self.colors.len() == self.width * self.height
    }

    /// Whether `(x, y)` names a cell of the sprite.
    pub open spec fn contains(self, x: int, y: int) -> bool {
        0 <= x < self.width && 0 <= y < self.height
    }

    /// The position of cell `(x, y)` in a grid.
    pub open spec fn index(self, x: int, y: int) -> int {
        y * self.width + x
    }

    /// The glyph at `(x, y)`; the empty glyph outside the sprite.
    pub open spec fn glyph_at(self, x: int, y: int) -> u16 {
        if self.contains(x, y) {
            self.glyphs[self.index(x, y)]
        } else {
            PIXEL_EMPTY
        }
    }

    /// The colour at `(x, y)`; black outside the sprite.
    pub open spec fn color_at(self, x: int, y: int) -> u16 {
        if self.contains(x, y) {
            self.colors[self.index(x, y)]
        } else {
            FG_BLACK
        }
    }

    /// A cell inside the grid has its index inside both grids.
    pub proof fn lemma_index_in_range(self, x: int, y: int)
        requires
            self.contains(x, y),
        ensures
            0 <= y * self.width <= self.index(x, y) < self.width * self.height,
    {
        let w = self.width as int;
        let h = self.height as int;
        assert(y * w + x < h * w) by (nonlinear_arith)
            requires
                0 <= x < w,
                0 <= y < h,
        ;
        assert(h * w == w * h) by (nonlinear_arith);
        assert(0 <= y * w) by (nonlinear_arith)
            requires
                0 <= y,
                0 <= w,
        ;
    }
}

impl View for Sprite {
    type V = SpriteView;

    closed spec fn view(&self) -> SpriteView {
        SpriteView {
            width: self.width as nat,
            height: self.height as nat,
            glyphs: self.glyphs@,
            colors: self.colors@,
        }
    }
}

/// A copy of `words`.
fn copy_words(words: &Vec<u16>) -> (copy: Vec<u16>)
    ensures
        copy@ == words@,
{
    let mut copy: Vec<u16> = Vec::new();
    let mut i: usize = 0;
    while i < words.len()
        invariant
            i <= words.len(),
            copy@ == words@.take(i as int),
        decreases words.len() - i,
    {
        copy.push(words[i]);
        proof {
            assert(words@.take(i + 1) =~= words@.take(i as int).push(words@[i as int]));
        }
        i += 1;
    }
    proof {
        assert(words@.take(i as int) =~= words@);
    }
    copy
}

impl Default for Sprite {
    /// The sprite without cells.
    fn default() -> (s: Self)
        ensures
            s@.wf(),
            s@.width == 0,
            s@.height == 0,
    {
        Sprite { width: 0, height: 0, glyphs: Vec::new(), colors: Vec::new() }
    }
}

impl Clone for Sprite {
    /// A sprite of the same size with the same cells.
    fn clone(&self) -> (s: Self)
        ensures
            s@ == self@,
    {
        Sprite {
            width: self.width,
            height: self.height,
            glyphs: copy_words(&self.glyphs),
            colors: copy_words(&self.colors),
        }
    }
}

impl Sprite {
    /// The width and the height of a sprite are machine words.
    pub proof fn lemma_size(&self)
        ensures
            self@.width <= usize::MAX,
            self@.height <= usize::MAX,
    {
    }

    /// Width of the sprite in characters.
    pub fn width(&self) -> (w: usize)
        ensures
            w == self@.width,
    {
        self.width
    }

    /// Height of the sprite in characters.
    pub fn height(&self) -> (h: usize)
        ensures
            h == self@.height,
    {
        self.height
    }

    /// Whether both grids hold exactly `width * height` cells, as they do
    /// unless the width or the height was changed from outside.
    pub fn is_well_formed(&self) -> (b: bool)
        ensures
            b == self@.wf(),
    {
        match self.width.checked_mul(self.height) {
            Some(count) => self.glyphs.len() == count && self.colors.len() == count,
            None => {
                proof {
                    assert(self.glyphs.len() == self@.glyphs.len());
                }
                false
            },
        }
    }

    /// Creates a new sprite of the given width and height.
    /// All glyphs are initialized to `PIXEL_EMPTY` and all colors to `FG_BLACK`.
    pub fn new(width: usize, height: usize) -> (s: Self)
        requires
            width * height <= usize::MAX,
        ensures
            s@.wf(),
            s@.width == width,
            s@.height == height,
            forall|i: int| 0 <= i < width * height ==> s@.glyphs[i] == PIXEL_EMPTY,
            forall|i: int| 0 <= i < width * height ==> s@.colors[i] == FG_BLACK,
    {
        let count: usize = width * height;
        let mut glyphs: Vec<u16> = Vec::new();
        let mut colors: Vec<u16> = Vec::new();
        let mut i: usize = 0;
        while i < count
            invariant
                i <= count,
                glyphs@.len() == i,
                colors@.len() == i,
                forall|k: int| 0 <= k < i ==> glyphs@[k] == PIXEL_EMPTY,
                forall|k: int| 0 <= k < i ==> colors@[k] == FG_BLACK,
            decreases count - i,
        {
            glyphs.push(PIXEL_EMPTY);
            colors.push(FG_BLACK);
            i += 1;
        }
        Sprite { width, height, glyphs, colors }
    }

    /// Sets the glyph at `(x, y)` to `g`; outside the sprite nothing changes.
    pub fn set_glyph(&mut self, x: usize, y: usize, g: u16)
        requires
            old(self)@.wf(),
        ensures
            final(self)@ == if old(self)@.contains(x as int, y as int) {
                (SpriteView {
                    glyphs: old(self)@.glyphs.update(old(self)@.index(x as int, y as int), g),
                    ..old(self)@
                })
            } else {
                old(self)@
            },
    {
        if x < self.width && y < self.height {
            proof {
                self@.lemma_index_in_range(x as int, y as int);
                assert(self.glyphs.len() == self@.glyphs.len());
            }
            let idx: usize = y * self.width + x;
            self.glyphs.set(idx, g);
        }
    }

    /// Sets the color at `(x, y)` to `c`; outside the sprite nothing changes.
    pub fn set_color(&mut self, x: usize, y: usize, c: u16)
        requires
            old(self)@.wf(),
        ensures
            final(self)@ == if old(self)@.contains(x as int, y as int) {
                (SpriteView {
                    colors: old(self)@.colors.update(old(self)@.index(x as int, y as int), c),
                    ..old(self)@
                })
            } else {
                old(self)@
            },
    {
        if x < self.width && y < self.height {
            proof {
                self@.lemma_index_in_range(x as int, y as int);
                assert(self.glyphs.len() == self@.glyphs.len());
            }
            let idx: usize = y * self.width + x;
            self.colors.set(idx, c);
        }
    }

    /// Returns the glyph at `(x, y)`, or `PIXEL_EMPTY` if out of bounds.
    pub fn get_glyph(&self, x: usize, y: usize) -> (g: u16)
        requires
            self@.wf(),
        ensures
            g == self@.glyph_at(x as int, y as int),
    {
        if x < self.width && y < self.height {
            proof {
                self@.lemma_index_in_range(x as int, y as int);
                assert(self.glyphs.len() == self@.glyphs.len());
            }
            self.glyphs[y * self.width + x]
        } else {
            PIXEL_EMPTY
        }
    }

    /// Returns the color at `(x, y)`, or `FG_BLACK` if out of bounds.
    pub fn get_color(&self, x: usize, y: usize) -> (c: u16)
        requires
            self@.wf(),
        ensures
            c == self@.color_at(x as int, y as int),
    {
        if x < self.width && y < self.height {
            proof {
                self@.lemma_index_in_range(x as int, y as int);
                assert(self.glyphs.len() == self@.glyphs.len());
            }
            self.colors[y * self.width + x]
        } else {
            FG_BLACK
        }
    }

    /// Samples the glyph of the plane that is tiled with copies of the
    /// sprite: cell `(x, y)` of the plane shows what the sprite has at
    /// `(x mod width, y mod height)`.
    pub fn sample_glyph(&self, x: i64, y: i64) -> (g: u16)
        requires
            self@.wf(),
            self@.width > 0,
            self@.height > 0,
        ensures
            g == self@.glyph_at(wrapped(x as int, self@.width), wrapped(y as int, self@.height)),
    {
        let sx = wrap(x, self.width);
        let sy = wrap(y, self.height);
        self.get_glyph(sx, sy)
    }

    /// Samples the color of the plane that is tiled with copies of the
    /// sprite: cell `(x, y)` of the plane shows what the sprite has at
    /// `(x mod width, y mod height)`.
    pub fn sample_color(&self, x: i64, y: i64) -> (c: u16)
        requires
            self@.wf(),
            self@.width > 0,
            self@.height > 0,
        ensures
            c == self@.color_at(wrapped(x as int, self@.width), wrapped(y as int, self@.height)),
    {
        let sx = wrap(x, self.width);
        let sy = wrap(y, self.height);
        self.get_color(sx, sy)
    }

    /// Reads a sprite from its binary form: the width and the height, each
    /// as four bytes with the lowest first, then the colors and then the
    /// glyphs of all cells, row by row, each as two bytes with the lower
    /// first. Bytes beyond these are ignored.
    #[verifier::rlimit(50)]
    pub fn from_bytes(buf: &[u8]) -> (res: Result<Sprite, SpriteError>)
        ensures
            match res {
                Ok(sprite) => decoded(buf@) == Ok::<SpriteView, SpriteError>(sprite@) && sprite@.wf(),
                Err(e) => decoded(buf@) == Err::<SpriteView, SpriteError>(e),
            },
    {
        if buf.len() < 8 {
            return Err(SpriteError::TooSmall);
        }
        let width: usize = read_u32(buf, 0) as usize;
        let height: usize = read_u32(buf, 4) as usize;
        let count: usize = match width.checked_mul(height) {
            Some(count) => count,
            None => {
                return Err(SpriteError::DimensionsOverflow);
            },
        };
        let room: usize = (buf.len() - 8) / 4;
        if count > room {
            return Err(SpriteError::Truncated);
        }
        let mut colors: Vec<u16> = Vec::new();
        let mut i: usize = 0;
        while i < count
            invariant
                i <= count,
                8 + 4 * count <= buf@.len() <= usize::MAX,
                colors@.len() == i,
                forall|k: int| 0 <= k < i ==> colors@[k] == word_at(buf@, 8 + 2 * k),
            decreases count - i,
        {
            colors.push(read_u16(buf, 8 + 2 * i));
            i += 1;
        }
        let mut glyphs: Vec<u16> = Vec::new();
        let mut j: usize = 0;
        while j < count
            invariant
                j <= count,
                8 + 4 * count <= buf@.len() <= usize::MAX,
                glyphs@.len() == j,
                forall|k: int| 0 <= k < j ==> glyphs@[k] == word_at(buf@, 8 + 2 * count + 2 * k),
            decreases count - j,
        {
            glyphs.push(read_u16(buf, 8 + 2 * count + 2 * j));
            j += 1;
        }
        let sprite = Sprite { width, height, glyphs, colors };
        proof {
            let want = decoded(buf@)->Ok_0;
            assert(sprite@.colors =~= want.colors);
            assert(sprite@.glyphs =~= want.glyphs);
        }
        Ok(sprite)
    }

    /// Writes the sprite in its binary form, if it is well formed and its
    /// bytes are few enough for the machine to hold them in one piece;
    /// `None` otherwise.
    pub fn try_to_bytes(&self) -> (res: Option<Vec<u8>>)
        ensures
            res is Some == (self@.wf() && 8 + 4 * (self@.width * self@.height) <= usize::MAX),
            res matches Some(bytes) ==> bytes@ == encoded(self@),
            res matches Some(bytes) ==> (self@.width <= u32::MAX && self@.height <= u32::MAX
                ==> decoded(bytes@) == Ok::<SpriteView, SpriteError>(self@)),
    {
        if !self.is_well_formed() {
            return None;
        }
        let count: usize = self.glyphs.len();
        assert(count == self@.width * self@.height);
        if count > (usize::MAX - 8) / 4 {
            return None;
        }
        Some(self.to_bytes())
    }

    /// Writes the sprite in its binary form, as `from_bytes` reads it. A
    /// width or height beyond 32 bits is cut to its low 32 bits; for every
    /// other sprite, reading the bytes gives the sprite back.
    pub fn to_bytes(&self) -> (bytes: Vec<u8>)
        requires
            self@.wf(),
            8 + 4 * (self@.width * self@.height) <= usize::MAX,
        ensures
            bytes@ == encoded(self@),
            self@.width <= u32::MAX && self@.height <= u32::MAX ==> decoded(bytes@) == Ok::<
                SpriteView,
                SpriteError,
            >(self@),
    {
        proof {
            if self@.width <= u32::MAX && self@.height <= u32::MAX {
                lemma_round_trip(self@);
            }
        }
        self.encode()
    }

    /// The bytes of the sprite, written one after another.
    #[verifier::rlimit(50)]
    fn encode(&self) -> (bytes: Vec<u8>)
        requires
            self@.wf(),
            8 + 4 * (self@.width * self@.height) <= usize::MAX,
        ensures
            bytes@ == encoded(self@),
    {
        let mut bytes: Vec<u8> = Vec::new();
        let w: u32 = (self.width as u64 % 0x1_0000_0000) as u32;
        let h: u32 = (self.height as u64 % 0x1_0000_0000) as u32;
        bytes.push((w % 256) as u8);
        bytes.push((w / 256 % 256) as u8);
        bytes.push((w / 65536 % 256) as u8);
        bytes.push((w / 16777216) as u8);
        bytes.push((h % 256) as u8);
        bytes.push((h / 256 % 256) as u8);
        bytes.push((h / 65536 % 256) as u8);
        bytes.push((h / 16777216) as u8);
        let count: usize = self.colors.len();
        assert(count == self@.width * self@.height);
        let mut i: usize = 0;
        while i < count
            invariant
                i <= count,
                count == self@.width * self@.height,
                count == self.colors@.len(),
                self@.colors == self.colors@,
                bytes@.len() == 8 + 2 * i,
                forall|k: int| 0 <= k < 8 + 2 * i ==> bytes@[k] == encoded(self@)[k],
            decreases count - i,
        {
            let c = self.colors[i];
            bytes.push((c % 256) as u8);
            bytes.push((c / 256) as u8);
            i += 1;
        }
        assert(self.glyphs.len() == count);
        let mut j: usize = 0;
        while j < count
            invariant
                j <= count,
                count == self@.width * self@.height,
                count == self.glyphs@.len(),
                self@.glyphs == self.glyphs@,
                8 + 4 * count <= usize::MAX,
                bytes@.len() == 8 + 2 * count + 2 * j,
                forall|k: int| 0 <= k < 8 + 2 * count + 2 * j ==> bytes@[k] == encoded(self@)[k],
            decreases count - j,
        {
            let g = self.glyphs[j];
            bytes.push((g % 256) as u8);
            bytes.push((g / 256) as u8);
            j += 1;
        }
        assert(bytes@ =~= encoded(self@));
        bytes
    }
}

/// Why a sequence of bytes is not a sprite.
#[derive(Clone, Copy, Debug, PartialEq, Eq, Structural)]
pub enum SpriteError {
    /// There are fewer than the eight bytes of width and height.
    TooSmall,
    /// The number of cells does not fit the machine's word.
    DimensionsOverflow,
    /// There are fewer bytes than the cells need.
    Truncated,
}

/// The 16-bit number whose lower byte is `bytes[at]` and whose higher byte
/// follows it.
pub open spec fn word_at(bytes: Seq<u8>, at: int) -> u16 {
    (bytes[at] + 256 * bytes[at + 1]) as u16
}

/// The 32-bit number whose four bytes start at `bytes[at]`, lowest first.
pub open spec fn long_at(bytes: Seq<u8>, at: int) -> nat {
    (bytes[at] + 256 * bytes[at + 1] + 65536 * bytes[at + 2] + 16777216 * bytes[at + 3]) as nat
}

/// Byte `i` of the 32-bit number `v`, counted from the lowest.
pub open spec fn long_byte(v: int, i: int) -> u8 {
    if i == 0 {
        (v % 256) as u8
    } else if i == 1 {
        (v / 256 % 256) as u8
    } else if i == 2 {
        (v / 65536 % 256) as u8
    } else {
        (v / 16777216 % 256) as u8
    }
}

/// Byte `i` of the words `words` written one after another, each with its
/// lower byte first.
pub open spec fn words_byte(words: Seq<u16>, i: int) -> u8 {
    if i % 2 == 0 {
        (words[i / 2] % 256) as u8
    } else {
        (words[i / 2] / 256) as u8
    }
}

/// The sprite that a sequence of bytes stands for, or why it stands for none.
pub open spec fn decoded(bytes: Seq<u8>) -> Result<SpriteView, SpriteError> {
    if bytes.len() < 8 {
        Err(SpriteError::TooSmall)
    } else {
        let width = long_at(bytes, 0);
        let height = long_at(bytes, 4);
        let count = width * height;
        if count > usize::MAX {
            Err(SpriteError::DimensionsOverflow)
        } else if bytes.len() < 8 + 4 * count {
            Err(SpriteError::Truncated)
        } else {
            Ok(
                SpriteView {
                    width,
                    height,
                    colors: Seq::new(count, |i: int| word_at(bytes, 8 + 2 * i)),
                    glyphs: Seq::new(count, |i: int| word_at(bytes, 8 + 2 * count + 2 * i)),
                },
            )
        }
    }
}

/// The bytes that stand for a sprite.
pub open spec fn encoded(s: SpriteView) -> Seq<u8> {
    let count = s.width * s.height;
    Seq::new(
        (8 + 4 * count) as nat,
        |i: int|
            if i < 4 {
                long_byte((s.width % 0x1_0000_0000) as int, i)
            } else if i < 8 {
                long_byte((s.height % 0x1_0000_0000) as int, i - 4)
            } else if i < 8 + 2 * count {
                words_byte(s.colors, i - 8)
            } else {
                words_byte(s.glyphs, i - 8 - 2 * count)
            },
    )
}

/// The coordinate that `v` is taken to by the tiling of the plane with
/// copies of a sprite that is `extent` cells wide or high.
pub open spec fn wrapped(v: int, extent: nat) -> int {
    v % (extent as int)
}

/// The four bytes of a 32-bit number, put together again, give the number.
proof fn lemma_long_bytes(v: int)
    requires
        0 <= v <= u32::MAX,
    ensures
        long_byte(v, 0) + 256 * long_byte(v, 1) + 65536 * long_byte(v, 2) + 16777216 * long_byte(
            v,
            3,
        ) == v,
{
}

/// The two bytes of word `k`, put together again, give the word.
proof fn lemma_word_bytes(words: Seq<u16>, k: int)
    requires
        0 <= k < words.len(),
    ensures
        (words_byte(words, 2 * k) + 256 * words_byte(words, 2 * k + 1)) as u16 == words[k],
{
    assert((2 * k) % 2 == 0);
    assert((2 * k) / 2 == k);
    assert((2 * k + 1) % 2 == 1);
    assert((2 * k + 1) / 2 == k);
}

/// A sprite that is written and read again is the same sprite, provided
/// that its width and its height fit 32 bits.
#[verifier::rlimit(50)]
pub proof fn lemma_round_trip(s: SpriteView)
    requires
        s.wf(),
        s.width <= u32::MAX,
        s.height <= u32::MAX,
        s.width * s.height <= usize::MAX,
    ensures
        decoded(encoded(s)) == Ok::<SpriteView, SpriteError>(s),
{
    let bytes = encoded(s);
    let count = s.width * s.height;
    let w = s.width as int;
    let h = s.height as int;
    assert(bytes.len() == 8 + 4 * count);
    assert(w % 0x1_0000_0000 == w);
    assert(h % 0x1_0000_0000 == h);
    assert(long_at(bytes, 0) == s.width) by {
        lemma_long_bytes(w);
        assert(bytes[0] == long_byte(w, 0));
        assert(bytes[1] == long_byte(w, 1));
        assert(bytes[2] == long_byte(w, 2));
        assert(bytes[3] == long_byte(w, 3));
    }
    assert(long_at(bytes, 4) == s.height) by {
        lemma_long_bytes(h);
        assert(bytes[4] == long_byte(h, 0));
        assert(bytes[5] == long_byte(h, 1));
        assert(bytes[6] == long_byte(h, 2));
        assert(bytes[7] == long_byte(h, 3));
    }
    assert(decoded(bytes) is Ok);
    let back = decoded(bytes)->Ok_0;
    assert(back.width == s.width && back.height == s.height);
    assert(back.colors.len() == count && back.glyphs.len() == count);
    assert forall|i: int| 0 <= i < count implies back.colors[i] == s.colors[i] by {
        lemma_word_bytes(s.colors, i);
        assert(bytes[8 + 2 * i] == words_byte(s.colors, 2 * i));
        assert(bytes[8 + 2 * i + 1] == words_byte(s.colors, 2 * i + 1));
        assert(back.colors[i] == word_at(bytes, 8 + 2 * i));
    }
    assert forall|i: int| 0 <= i < count implies back.glyphs[i] == s.glyphs[i] by {
        lemma_word_bytes(s.glyphs, i);
        assert(bytes[8 + 2 * count + 2 * i] == words_byte(s.glyphs, 2 * i));
        assert(bytes[8 + 2 * count + 2 * i + 1] == words_byte(s.glyphs, 2 * i + 1));
        assert(back.glyphs[i] == word_at(bytes, 8 + 2 * count + 2 * i));
    }
    assert(back.colors =~= s.colors);
    assert(back.glyphs =~= s.glyphs);
}

/// Sampling is periodic: a whole number of widths to the side and a whole
/// number of heights up or down, the plane shows the same cell.
pub proof fn lemma_sample_periodic(s: SpriteView, x: int, y: int, i: int, j: int)
    requires
        s.width > 0,
        s.height > 0,
    ensures
        wrapped(x + i * s.width, s.width) == wrapped(x, s.width),
        wrapped(y + j * s.height, s.height) == wrapped(y, s.height),
        s.contains(wrapped(x, s.width), wrapped(y, s.height)),
        s.glyph_at(wrapped(x + i * s.width, s.width), wrapped(y + j * s.height, s.height))
            == s.glyph_at(wrapped(x, s.width), wrapped(y, s.height)),
        s.color_at(wrapped(x + i * s.width, s.width), wrapped(y + j * s.height, s.height))
            == s.color_at(wrapped(x, s.width), wrapped(y, s.height)),
{
    vstd::arithmetic::div_mod::lemma_mod_multiples_vanish(i, x, s.width as int);
    vstd::arithmetic::div_mod::lemma_mod_multiples_vanish(j, y, s.height as int);
    assert(i * s.width == s.width * i) by (nonlinear_arith);
    assert(j * s.height == s.height * j) by (nonlinear_arith);
}

/// The 32-bit number at `at`, lowest byte first.
fn read_u32(buf: &[u8], at: usize) -> (v: u32)
    requires
        at + 4 <= buf@.len(),
    ensures
        v == long_at(buf@, at as int),
{
    let b0: u32 = buf[at] as u32;
    let b1: u32 = buf[at + 1] as u32;
    let b2: u32 = buf[at + 2] as u32;
    let b3: u32 = buf[at + 3] as u32;
    b0 + 256 * b1 + 65536 * b2 + 16777216 * b3
}

/// The 16-bit number at `at`, lower byte first.
fn read_u16(buf: &[u8], at: usize) -> (v: u16)
    requires
        at + 2 <= buf@.len(),
    ensures
        v == word_at(buf@, at as int),
{
    let b0: u16 = buf[at] as u16;
    let b1: u16 = buf[at + 1] as u16;
    b0 + 256 * b1
}

/// `v` brought into the range from 0 to `extent`, `extent` left out, by
/// adding or taking away a whole number of `extent`s.
fn wrap(v: i64, extent: usize) -> (r: usize)
    requires
        extent > 0,
    ensures
        r == wrapped(v as int, extent as nat),
        r < extent,
{
    let e: u128 = extent as u128;
    if v >= 0 {
        let m: u128 = (v as u128) % e;
        m as usize
    } else {
        let d: u128 = (-(v as i128) - 1) as u128;
        let m: u128 = d % e;
        proof {
            let q = (d as int) / (e as int);
            vstd::arithmetic::div_mod::lemma_fundamental_div_mod(d as int, e as int);
            assert((-(q + 1)) * (e as int) == -(e * q) - e) by (nonlinear_arith);
            vstd::arithmetic::div_mod::lemma_fundamental_div_mod_converse(
                v as int,
                e as int,
                -(q + 1),
                e - 1 - m,
            );
        }
        (e - 1 - m) as usize
    }
}

} // verus!
