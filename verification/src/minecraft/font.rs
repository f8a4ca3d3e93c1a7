//! Pixel glyphs: the default bitmap font first, then Unifont.
//!
//! A glyph's `advance` counts GUI pixels. Its width, height and ascent count its own pixels: GUI
//! pixels in the default font, half GUI pixels in Unifont.

use vstd::prelude::*;
use std::collections::HashMap;

verus! {

broadcast use vstd::std_specs::hash::group_hash_axioms;

/// The rows that a glyph holds.
pub const GLYPH_ROWS: usize = 16;

/// The ascent of every Unifont glyph.
pub const UNIFONT_ASCENT: u8 = 14;

/// A pixel glyph. The top bit of a row is its leftmost pixel.
#[derive(Clone, Copy)]
pub struct Glyph {
    /// The distance to the next glyph.
    pub advance: u8,
    pub width: u8,
    pub height: u8,
    /// The number of rows above the baseline.
    pub ascent: u8,
    /// Whether the glyph comes from Unifont.
    pub unifont: bool,
    pub rows: [u16; 16],
}

/// What a [`Glyph`] holds.
#[verifier::ext_equal]
pub struct GlyphView {
    pub advance: u8,
    pub width: u8,
    pub height: u8,
    pub ascent: u8,
    pub unifont: bool,
    pub rows: Seq<u16>,
}

/// The pixel of a row, counted from the left.
pub open spec fn lit(row: u16, col: int) -> bool {
    (row >> ((15 - col) as u16)) & 1u16 == 1u16
}

impl GlyphView {
    /// The glyph fits its rows.
    pub open spec fn wf(self) -> bool {
        self.width <= 16 && self.height <= 16 && self.rows.len() == 16
    }

    /// The pixel at a column and a row; there is none outside the glyph.
    pub open spec fn at(self, col: int, row: int) -> bool {
        0 <= col < self.width && 0 <= row < self.height && lit(self.rows[row], col)
    }
}

/// The pixel of a row, counted from the left.
fn is_lit(row: u16, col: usize) -> (r: bool)
    requires
        col < 16,
    ensures
        r == lit(row, col as int),
{
    (row >> ((15 - col) as u16)) & 1u16 == 1u16
}

impl Glyph {
    /// What the glyph holds.
    pub open spec fn model(self) -> GlyphView {
        GlyphView {
            advance: self.advance,
            width: self.width,
            height: self.height,
            ascent: self.ascent,
            unifont: self.unifont,
            rows: self.rows@,
        }
    }

    /// The pixel at a column and a row; there is none outside the glyph.
    pub fn pixel(&self, col: u32, row: u32) -> (r: bool)
        requires
            col < self.width && row < self.height ==> col < 16 && row < 16,
        ensures
            r == self.model().at(col as int, row as int),
    {
        if col >= self.width as u32 || row >= self.height as u32 {
            return false;
        }
        is_lit(self.rows[row as usize], col as usize)
    }
}

/// What gives glyphs for characters.
pub trait GlyphSource {
    /// The glyph of a character, where there is one.
    spec fn glyph_of(&self, ch: char) -> Option<Glyph>;

    /// The glyph of a character, where there is one.
    fn glyph(&self, ch: char) -> (r: Option<Glyph>)
        ensures
            r == self.glyph_of(ch),
    ;
}

/// The default font and Unifont.
pub struct VanillaFont {
    default: HashMap<u32, Glyph>,
    unifont: HashMap<u32, Glyph>,
}

/// What each glyph of a table holds.
pub open spec fn table_view(m: Map<u32, Glyph>) -> Map<u32, GlyphView> {
    m.map_values(|g: Glyph| g.model())
}

/// Each glyph of a table fits its rows.
pub open spec fn table_ok(m: Map<u32, GlyphView>) -> bool {
    forall|k: u32| #[trigger] m.dom().contains(k) ==> m[k].wf()
}

impl VanillaFont {
    /// The glyphs of the default font, by code point.
    pub closed spec fn default_table(self) -> Map<u32, GlyphView> {
        table_view(self.default@)
    }

    /// The glyphs of Unifont, by code point.
    pub closed spec fn unifont_table(self) -> Map<u32, GlyphView> {
        table_view(self.unifont@)
    }

    /// Every glyph fits its rows.
    pub open spec fn wf(self) -> bool {
        table_ok(self.default_table()) && table_ok(self.unifont_table())
    }

    /// What the glyph of a character holds: that of the default font, else that of Unifont.
    pub open spec fn lookup(self, ch: char) -> Option<GlyphView> {
        let k = ch as u32;
        if self.default_table().dom().contains(k) {
            Some(self.default_table()[k])
        } else if self.unifont_table().dom().contains(k) {
            Some(self.unifont_table()[k])
        } else {
            None
        }
    }
}

/// What an optional glyph holds.
pub open spec fn opt_glyph(g: Option<Glyph>) -> Option<GlyphView> {
    match g {
        Some(x) => Some(x.model()),
        None => None,
    }
}

impl GlyphSource for VanillaFont {
    closed spec fn glyph_of(&self, ch: char) -> Option<Glyph> {
        let k = ch as u32;
        if self.default@.dom().contains(k) {
            Some(self.default@[k])
        } else if self.unifont@.dom().contains(k) {
            Some(self.unifont@[k])
        } else {
            None
        }
    }

    fn glyph(&self, ch: char) -> (r: Option<Glyph>)
        ensures
            opt_glyph(r) == self.lookup(ch),
            self.wf() ==> (r matches Some(g) ==> g.model().wf()),
    {
        let k: u32 = ch as u32;
        match self.default.get(&k) {
            Some(g) => Some(*g),
            None => match self.unifont.get(&k) {
                Some(g) => Some(*g),
                None => None,
            },
        }
    }
}

// ---- the font files ----

/// The little-endian number in two bytes.
pub open spec fn le16(data: Seq<u8>, at: int) -> nat {
    data[at] as nat + 256 * data[at + 1] as nat
}

/// The little-endian number in four bytes.
pub open spec fn le32(data: Seq<u8>, at: int) -> nat {
    le16(data, at) + 0x1_0000 * le16(data, at + 2)
}

/// The big-endian number in two bytes.
pub open spec fn be16(data: Seq<u8>, at: int) -> nat {
    256 * data[at] as nat + data[at + 1] as nat
}

/// The code point is that of a character.
pub open spec fn is_scalar(cp: nat) -> bool {
    cp < 0xD800 || 0xE000 <= cp <= 0x10FFFF
}

/// The file starts with these four bytes and a count.
pub open spec fn has_magic(data: Seq<u8>, magic: Seq<u8>) -> bool {
    data.len() >= 8 && data.take(4) == magic
}

/// The start of a file of the default font: `MCF2`.
pub open spec fn mcf_magic() -> Seq<u8> {
    seq![0x4Du8, 0x43u8, 0x46u8, 0x32u8]
}

/// The start of a file of Unifont: `UFB1`.
pub open spec fn ufb_magic() -> Seq<u8> {
    seq![0x55u8, 0x46u8, 0x42u8, 0x31u8]
}

/// How many records the file announces.
pub open spec fn record_count(data: Seq<u8>) -> nat {
    le32(data, 4)
}

/// A whole record of the default font stands at `p`.
pub open spec fn mcf_fits(data: Seq<u8>, p: int) -> bool {
    p + 8 <= data.len() && p + 8 + 2 * data[p + 6] <= data.len()
}

/// Where the record `n` starts, unless the data end before it.
pub open spec fn mcf_pos(data: Seq<u8>, n: nat) -> Option<int>
    decreases n,
{
    if n == 0 {
        Some(8)
    } else {
        match mcf_pos(data, (n - 1) as nat) {
            Some(p) => if mcf_fits(data, p) {
                Some(p + 8 + 2 * data[p + 6])
            } else {
                None
            },
            None => None,
        }
    }
}

/// The glyph of a record: advance, width, height, ascent, and the rows as far as there are any.
pub open spec fn mcf_glyph(data: Seq<u8>, p: int) -> GlyphView {
    GlyphView {
        advance: data[p + 4],
        width: data[p + 5],
        height: data[p + 6],
        ascent: data[p + 7],
        unifont: false,
        rows: Seq::new(
            16,
            |r: int|
                if r < data[p + 6] {
                    le16(data, p + 8 + 2 * r) as u16
                } else {
                    0u16
                },
        ),
    }
}

/// The glyphs of the first `n` records; a later record replaces an earlier one.
pub open spec fn mcf_table(data: Seq<u8>, n: nat) -> Map<u32, GlyphView>
    decreases n,
{
    if n == 0 {
        Map::empty()
    } else {
        let m = mcf_table(data, (n - 1) as nat);
        match mcf_pos(data, (n - 1) as nat) {
            Some(p) => if mcf_fits(data, p) && is_scalar(le32(data, p)) {
                m.insert(le32(data, p) as u32, mcf_glyph(data, p))
            } else {
                m
            },
            None => m,
        }
    }
}

/// The glyphs of a file of the default font.
pub open spec fn mcfont_table(data: Seq<u8>) -> Map<u32, GlyphView> {
    if has_magic(data, mcf_magic()) {
        mcf_table(data, record_count(data))
    } else {
        Map::empty()
    }
}

/// How many bytes the bitmap of a Unifont cell takes.
pub open spec fn cell_bytes(cell: u8) -> int {
    if cell == 8 {
        16
    } else {
        32
    }
}

/// A whole record of Unifont stands at `p`.
pub open spec fn ufb_fits(data: Seq<u8>, p: int) -> bool {
    p + 3 <= data.len() && p + 3 + cell_bytes(data[p + 2]) <= data.len()
}

/// Where the record `n` starts, unless the data end before it.
pub open spec fn ufb_pos(data: Seq<u8>, n: nat) -> Option<int>
    decreases n,
{
    if n == 0 {
        Some(8)
    } else {
        match ufb_pos(data, (n - 1) as nat) {
            Some(p) => if ufb_fits(data, p) {
                Some(p + 3 + cell_bytes(data[p + 2]))
            } else {
                None
            },
            None => None,
        }
    }
}

/// The rows of a cell as they stand in the file.
pub open spec fn raw_rows(data: Seq<u8>, p: int) -> Seq<u16> {
    Seq::new(
        16,
        |r: int|
            if data[p + 2] == 8 {
                (256 * data[p + 3 + r]) as u16
            } else {
                be16(data, p + 3 + 2 * r) as u16
            },
    )
}

/// Some row has a pixel in the column.
pub open spec fn column_lit(rows: Seq<u16>, col: int) -> bool {
    exists|r: int| 0 <= r < rows.len() && lit(#[trigger] rows[r], col)
}

/// The leftmost of the first `n` columns with a pixel.
pub open spec fn leftmost(rows: Seq<u16>, n: nat) -> Option<nat>
    decreases n,
{
    if n == 0 {
        None
    } else {
        match leftmost(rows, (n - 1) as nat) {
            Some(c) => Some(c),
            None => if column_lit(rows, n - 1) {
                Some((n - 1) as nat)
            } else {
                None
            },
        }
    }
}

/// The rightmost of the first `n` columns with a pixel.
pub open spec fn rightmost(rows: Seq<u16>, n: nat) -> Option<nat>
    decreases n,
{
    if n == 0 {
        None
    } else if column_lit(rows, n - 1) {
        Some((n - 1) as nat)
    } else {
        rightmost(rows, (n - 1) as nat)
    }
}

/// The rows moved to the left.
pub open spec fn moved_left(rows: Seq<u16>, n: nat) -> Seq<u16> {
    Seq::new(rows.len(), |r: int| rows[r] << (n as u16))
}

/// The glyph of a cell without the empty columns at its sides. Its advance is half its width and
/// one; an empty cell advances by eight.
pub open spec fn ufb_glyph(data: Seq<u8>, p: int) -> GlyphView {
    let rows = raw_rows(data, p);
    let cell = data[p + 2] as nat;
    match (leftmost(rows, cell), rightmost(rows, cell)) {
        (Some(left), Some(right)) => {
            let width = right - left + 1;
            GlyphView {
                advance: (width / 2 + 1) as u8,
                width: width as u8,
                height: 16,
                ascent: UNIFONT_ASCENT,
                unifont: true,
                rows: moved_left(rows, left),
            }
        },
        _ => GlyphView {
            advance: 8,
            width: 0,
            height: 16,
            ascent: UNIFONT_ASCENT,
            unifont: true,
            rows: Seq::new(16, |r: int| 0u16),
        },
    }
}

/// The glyphs of the first `n` records; a later record replaces an earlier one.
pub open spec fn ufb_table(data: Seq<u8>, n: nat) -> Map<u32, GlyphView>
    decreases n,
{
    if n == 0 {
        Map::empty()
    } else {
        let m = ufb_table(data, (n - 1) as nat);
        match ufb_pos(data, (n - 1) as nat) {
            Some(p) => if ufb_fits(data, p) && is_scalar(le16(data, p)) {
                m.insert(le16(data, p) as u32, ufb_glyph(data, p))
            } else {
                m
            },
            None => m,
        }
    }
}

/// The glyphs of a file of Unifont.
pub open spec fn unifont_table_of(data: Seq<u8>) -> Map<u32, GlyphView> {
    if has_magic(data, ufb_magic()) {
        ufb_table(data, record_count(data))
    } else {
        Map::empty()
    }
}

/// No cell of the first `n` records is wider than a row.
pub open spec fn cells_ok(data: Seq<u8>, n: nat) -> bool
    decreases n,
{
    n > 0 ==> {
        &&& cells_ok(data, (n - 1) as nat)
        &&& match ufb_pos(data, (n - 1) as nat) {
            Some(p) => ufb_fits(data, p) ==> data[p + 2] <= 16,
            None => true,
        }
    }
}

/// No cell of a Unifont file is wider than a row.
pub open spec fn unifont_ok(data: Seq<u8>) -> bool {
    has_magic(data, ufb_magic()) ==> cells_ok(data, record_count(data))
}

/// The little-endian number in two bytes.
fn le16_at(data: &[u8], at: usize) -> (r: u16)
    requires
        at + 2 <= data.len(),
    ensures
        r == le16(data@, at as int),
{
    data[at] as u16 + 256 * (data[at + 1] as u16)
}

/// The little-endian number in four bytes.
fn le32_at(data: &[u8], at: usize) -> (r: u32)
    requires
        at + 4 <= data.len(),
    ensures
        r == le32(data@, at as int),
{
    le16_at(data, at) as u32 + 0x1_0000 * (le16_at(data, at + 2) as u32)
}

/// Whether the file starts with these four bytes and a count.
fn starts_with(data: &[u8], a: u8, b: u8, c: u8, d: u8) -> (r: bool)
    ensures
        r == has_magic(data@, seq![a, b, c, d]),
{
    if data.len() < 8 {
        return false;
    }
    let r = data[0] == a && data[1] == b && data[2] == c && data[3] == d;
    proof {
        let head = data@.take(4);
        if r {
            assert(head =~= seq![a, b, c, d]);
        } else {
            assert(head[0] == data@[0] && head[1] == data@[1] && head[2] == data@[2] && head[3]
                == data@[3]);
            assert(seq![a, b, c, d][0] == a && seq![a, b, c, d][1] == b && seq![a, b, c, d][2] == c
                && seq![a, b, c, d][3] == d);
        }
    }
    r
}

proof fn lemma_mcf_stop(data: Seq<u8>, i: nat, n: nat)
    requires
        i <= n,
        i == n || mcf_pos(data, i) is None,
    ensures
        mcf_table(data, n) == mcf_table(data, i),
        i < n ==> mcf_pos(data, n) is None,
    decreases n,
{
    if i < n {
        lemma_mcf_stop(data, i, (n - 1) as nat);
    }
}

proof fn lemma_ufb_stop(data: Seq<u8>, i: nat, n: nat)
    requires
        i <= n,
        i == n || ufb_pos(data, i) is None,
    ensures
        ufb_table(data, n) == ufb_table(data, i),
        cells_ok(data, n) == cells_ok(data, i),
        i < n ==> ufb_pos(data, n) is None,
    decreases n,
{
    if i < n {
        lemma_ufb_stop(data, i, (n - 1) as nat);
    }
}

proof fn lemma_table_insert(m: Map<u32, Glyph>, k: u32, g: Glyph)
    ensures
        table_view(m.insert(k, g)) == table_view(m).insert(k, g.model()),
{
    assert(table_view(m.insert(k, g)) =~= table_view(m).insert(k, g.model()));
}

/// Reads the glyph of a record of the default font.
fn read_mcf_glyph(data: &[u8], p: usize) -> (r: Glyph)
    requires
        mcf_fits(data@, p as int),
    ensures
        r.model() == mcf_glyph(data@, p as int),
{
    assert(p + 8 <= data.len());
    let height = data[p + 6];
    let mut rows: [u16; 16] = [0u16;16];
    let h: usize = if height < 16 {
        height as usize
    } else {
        16
    };
    for i in 0..h
        invariant
            h <= 16,
            h <= height,
            height == data@[p + 6],
            mcf_fits(data@, p as int),
            p + 8 + 2 * h <= data.len(),
            forall|k: int| 0 <= k < i ==> rows@[k] == le16(data@, p + 8 + 2 * k),
            forall|k: int| i <= k < 16 ==> rows@[k] == 0,
    {
        rows[i] = le16_at(data, p + 8 + 2 * i);
    }
    let g = Glyph {
        advance: data[p + 4],
        width: data[p + 5],
        height,
        ascent: data[p + 7],
        unifont: false,
        rows,
    };
    assert(g.model().rows =~= mcf_glyph(data@, p as int).rows);
    g
}

/// Reads a file of the default font. Where the data are cut off, what was read before stays.
pub fn parse_mcfont(data: &[u8]) -> (r: HashMap<u32, Glyph>)
    ensures
        table_view(r@) == mcfont_table(data@),
{
    let mut map: HashMap<u32, Glyph> = HashMap::new();
    assert(table_view(map@) =~= Map::empty());
    if !starts_with(data, 0x4D, 0x43, 0x46, 0x32) {
        return map;
    }
    let count: u32 = le32_at(data, 4);
    let mut n: u32 = 0;
    let mut pos: usize = 8;
    let mut live = true;
    while n < count && live
        invariant
            n <= count,
            pos <= data@.len(),
            mcf_pos(data@, n as nat) == (if live {
                Some(pos as int)
            } else {
                None::<int>
            }),
            table_view(map@) == mcf_table(data@, n as nat),
        decreases count - n,
    {
        n += 1;
        if data.len() - pos < 8 {
            live = false;
            continue;
        }
        let h: usize = data[pos + 6] as usize;
        if data.len() - pos - 8 < 2 * h {
            live = false;
            continue;
        }
        let cp: u32 = le32_at(data, pos);
        if cp < 0xD800 || (0xE000 <= cp && cp <= 0x10FFFF) {
            let g = read_mcf_glyph(data, pos);
            proof {
                lemma_table_insert(map@, cp, g);
            }
            map.insert(cp, g);
        }
        pos = pos + 8 + 2 * h;
    }
    proof {
        lemma_mcf_stop(data@, n as nat, count as nat);
    }
    map
}

/// Whether some row has a pixel in the column.
fn is_column_lit(rows: &[u16; 16], col: usize) -> (r: bool)
    requires
        col < 16,
    ensures
        r == column_lit(rows@, col as int),
{
    for i in 0..GLYPH_ROWS
        invariant
            col < 16,
            forall|k: int| 0 <= k < i ==> !lit(#[trigger] rows@[k], col as int),
    {
        if is_lit(rows[i], col) {
            assert(lit(rows@[i as int], col as int));
            return true;
        }
    }
    false
}

/// Reads the rows of a cell.
fn read_raw_rows(data: &[u8], p: usize) -> (rows: [u16; 16])
    requires
        ufb_fits(data@, p as int),
    ensures
        rows@ == raw_rows(data@, p as int),
{
    assert(p + 3 <= data.len());
    let narrow = data[p + 2] == 8;
    let mut rows: [u16; 16] = [0u16;16];
    for i in 0..GLYPH_ROWS
        invariant
            ufb_fits(data@, p as int),
            p + 3 + (if narrow {
                16int
            } else {
                32
            }) <= data.len(),
            narrow == (data@[p + 2] == 8),
            forall|k: int| 0 <= k < i ==> rows@[k] == raw_rows(data@, p as int)[k],
    {
        rows[i] =
        if narrow {
            256 * (data[p + 3 + i] as u16)
        } else {
            256 * (data[p + 3 + 2 * i] as u16) + data[p + 3 + 2 * i + 1] as u16
        };
    }
    assert(rows@ =~= raw_rows(data@, p as int));
    rows
}

proof fn lemma_extremes(rows: Seq<u16>, n: nat)
    ensures
        leftmost(rows, n) is Some <==> rightmost(rows, n) is Some,
        leftmost(rows, n) matches Some(l) ==> l <= rightmost(rows, n)->0 < n && column_lit(
            rows,
            l as int,
        ) && column_lit(rows, rightmost(rows, n)->0 as int),
        leftmost(rows, n) is None ==> forall|c: int| 0 <= c < n ==> !column_lit(rows, c),
        leftmost(rows, n) matches Some(l) ==> forall|c: int|
            0 <= c < n && (c < l || c > rightmost(rows, n)->0) ==> !column_lit(rows, c),
    decreases n,
{
    if n > 0 {
        lemma_extremes(rows, (n - 1) as nat);
    }
}

/// Reads the glyph of a record of Unifont, without the empty columns at its sides.
fn read_ufb_glyph(data: &[u8], p: usize) -> (r: Glyph)
    requires
        ufb_fits(data@, p as int),
        data@[p + 2] <= 16,
    ensures
        r.model() == ufb_glyph(data@, p as int),
{
    assert(p + 3 <= data.len());
    let raw = read_raw_rows(data, p);
    let cell: usize = data[p + 2] as usize;
    let mut left: Option<usize> = None;
    let mut right: usize = 0;
    for col in 0..cell
        invariant
            cell <= 16,
            match left {
                Some(l) => leftmost(raw@, col as nat) == Some(l as nat),
                None => leftmost(raw@, col as nat) is None,
            },
            left is Some ==> rightmost(raw@, col as nat) == Some(right as nat),
            left is None ==> rightmost(raw@, col as nat) is None,
    {
        if is_column_lit(&raw, col) {
            if left.is_none() {
                left = Some(col);
            }
            right = col;
        }
    }
    proof {
        lemma_extremes(raw@, cell as nat);
    }
    let mut rows: [u16; 16] = [0u16;16];
    match left {
        None => {
            let g = Glyph {
                advance: 8,
                width: 0,
                height: 16,
                ascent: UNIFONT_ASCENT,
                unifont: true,
                rows,
            };
            assert(g.model().rows =~= ufb_glyph(data@, p as int).rows);
            g
        },
        Some(l) => {
            for i in 0..GLYPH_ROWS
                invariant
                    l < 16,
                    forall|k: int| 0 <= k < i ==> rows@[k] == raw@[k] << (l as u16),
            {
                rows[i] = raw[i] << (l as u16);
            }
            let width: u8 = (right - l + 1) as u8;
            let g = Glyph {
                advance: width / 2 + 1,
                width,
                height: 16,
                ascent: UNIFONT_ASCENT,
                unifont: true,
                rows,
            };
            assert(g.model().rows =~= ufb_glyph(data@, p as int).rows);
            g
        },
    }
}

/// Whether no cell of a Unifont file is wider than a row.
pub fn unifont_is_sound(data: &[u8]) -> (r: bool)
    ensures
        r == unifont_ok(data@),
{
    if !starts_with(data, 0x55, 0x46, 0x42, 0x31) {
        return true;
    }
    let count: u32 = le32_at(data, 4);
    let mut n: u32 = 0;
    let mut pos: usize = 8;
    let mut live = true;
    while n < count && live
        invariant
            has_magic(data@, ufb_magic()),
            count == record_count(data@),
            n <= count,
            pos <= data@.len(),
            ufb_pos(data@, n as nat) == (if live {
                Some(pos as int)
            } else {
                None::<int>
            }),
            cells_ok(data@, n as nat),
        decreases count - n,
    {
        n += 1;
        if data.len() - pos < 3 {
            live = false;
            continue;
        }
        let cell = data[pos + 2];
        let len: usize = if cell == 8 {
            16
        } else {
            32
        };
        if data.len() - pos - 3 < len {
            live = false;
            continue;
        }
        if cell > 16 {
            proof {
                lemma_cells_ok_prefix(data@, n as nat, count as nat);
            }
            return false;
        }
        pos = pos + 3 + len;
    }
    proof {
        lemma_ufb_stop(data@, n as nat, count as nat);
    }
    true
}

proof fn lemma_cells_ok_prefix(data: Seq<u8>, i: nat, n: nat)
    requires
        i <= n,
    ensures
        cells_ok(data, n) ==> cells_ok(data, i),
    decreases n,
{
    if i < n {
        lemma_cells_ok_prefix(data, i, (n - 1) as nat);
    }
}

/// Reads a file of Unifont. Where the data are cut off, what was read before stays.
pub fn parse_unifont(data: &[u8]) -> (r: HashMap<u32, Glyph>)
    requires
        unifont_ok(data@),
    ensures
        table_view(r@) == unifont_table_of(data@),
        table_ok(table_view(r@)),
{
    let mut map: HashMap<u32, Glyph> = HashMap::new();
    assert(table_view(map@) =~= Map::empty());
    if !starts_with(data, 0x55, 0x46, 0x42, 0x31) {
        return map;
    }
    let count: u32 = le32_at(data, 4);
    let mut n: u32 = 0;
    let mut pos: usize = 8;
    let mut live = true;
    while n < count && live
        invariant
            cells_ok(data@, count as nat),
            n <= count,
            pos <= data@.len(),
            ufb_pos(data@, n as nat) == (if live {
                Some(pos as int)
            } else {
                None::<int>
            }),
            table_view(map@) == ufb_table(data@, n as nat),
            table_ok(table_view(map@)),
        decreases count - n,
    {
        n += 1;
        if data.len() - pos < 3 {
            live = false;
            continue;
        }
        let cell = data[pos + 2];
        let len: usize = if cell == 8 {
            16
        } else {
            32
        };
        if data.len() - pos - 3 < len {
            live = false;
            continue;
        }
        let cp: u32 = le16_at(data, pos) as u32;
        if cp < 0xD800 || 0xE000 <= cp {
            proof {
                lemma_cells_ok_prefix(data@, n as nat, count as nat);
            }
            let g = read_ufb_glyph(data, pos);
            proof {
                lemma_table_insert(map@, cp, g);
                lemma_extremes(raw_rows(data@, pos as int), cell as nat);
                assert(g.model().wf());
            }
            map.insert(cp, g);
        }
        pos = pos + 3 + len;
    }
    proof {
        lemma_ufb_stop(data@, n as nat, count as nat);
    }
    map
}

/// Whether each glyph of a table fits its rows.
fn is_table_ok(m: &HashMap<u32, Glyph>) -> (r: bool)
    ensures
        r == table_ok(table_view(m@)),
{
    for g in it: m.values()
        invariant
            it.seq().unref().to_set() == m@.values(),
            forall|k: int| 0 <= k < it.index() ==> (#[trigger] it.seq()[k]).model().wf(),
    {
        if g.width > 16 || g.height > 16 {
            proof {
                let all = it.seq().unref();
                assert(all[it.index() as int] == *g);
                assert(all.to_set().contains(*g));
                let k = choose|k: u32| #[trigger] m@.dom().contains(k) && m@[k] == *g;
                assert(table_view(m@).dom().contains(k));
            }
            return false;
        }
        assert(g.model().rows.len() == 16);
    }
    proof {
        assert forall|k: u32| #[trigger] table_view(m@).dom().contains(k) implies table_view(
            m@,
        )[k].wf() by {
            assert(m@.values().contains(m@[k]));
        }
    }
    true
}

/// The font that the two files hold, unless a glyph is larger than the rows it may take.
pub fn font(mcfont: &[u8], unifont: &[u8]) -> (r: Option<VanillaFont>)
    ensures
        r is Some <==> table_ok(mcfont_table(mcfont@)) && unifont_ok(unifont@),
        r matches Some(f) ==> f.wf() && f.default_table() == mcfont_table(mcfont@)
            && f.unifont_table() == unifont_table_of(unifont@),
{
    if !unifont_is_sound(unifont) {
        return None;
    }
    let default = parse_mcfont(mcfont);
    if !is_table_ok(&default) {
        return None;
    }
    Some(VanillaFont { default, unifont: parse_unifont(unifont) })
}

// ---- laws ----

/// Taking away the empty columns at the sides of a cell loses no pixel: the glyph shows at each
/// column what the cell shows at that column, counted from its leftmost pixel, and outside the
/// glyph the cell is empty.
pub proof fn trimming_keeps_pixels(data: Seq<u8>, p: int, col: int, row: int)
    requires
        ufb_fits(data, p),
        data[p + 2] <= 16,
        0 <= col < data[p + 2],
        0 <= row < 16,
    ensures
        ({
            let left = match leftmost(raw_rows(data, p), data[p + 2] as nat) {
                Some(l) => l as int,
                None => 0,
            };
            lit(raw_rows(data, p)[row], col) == ufb_glyph(data, p).at(col - left, row)
        }),
{
    let rows = raw_rows(data, p);
    let cell = data[p + 2] as nat;
    lemma_extremes(rows, cell);
    match leftmost(rows, cell) {
        Some(left) => {
            let right = rightmost(rows, cell)->0;
            if left <= col <= right {
                let s = rows[row];
                let l = left as u16;
                let c = (col - left) as u16;
                assert(((s << l) >> ((15 - c) as u16)) & 1u16 == (s >> ((15 - c - l) as u16))
                    & 1u16) by (bit_vector)
                    requires
                        l <= 15,
                        c <= 15,
                        c + l <= 15,
                ;
                assert((15 - c - l) as u16 == (15 - col) as u16);
            } else {
                assert(!column_lit(rows, col));
            }
        },
        None => {
            assert(!column_lit(rows, col));
        },
    }
}

/// A record of the default font gives the glyph of its character: advance, width, height and ascent
/// from its bytes, and the pixels of each row from the leftmost bit on.
pub proof fn records_give_their_glyphs(data: Seq<u8>, n: nat, p: int)
    requires
        mcf_pos(data, n) == Some(p),
        mcf_fits(data, p),
        is_scalar(le32(data, p)),
    ensures
        ({
            let t = mcf_table(data, n + 1);
            let k = (data[p] + 256 * data[p + 1] + 0x1_0000 * data[p + 2] + 0x100_0000 * data[p
                + 3]) as u32;
            &&& t.dom().contains(k)
            &&& t[k].advance == data[p + 4] && t[k].width == data[p + 5]
            &&& t[k].height == data[p + 6] && t[k].ascent == data[p + 7]
            &&& !t[k].unifont
            &&& forall|r: int|
                0 <= r < data[p + 6] && r < 16 ==> #[trigger] t[k].rows[r] == data[p + 8 + 2 * r]
                    + 256 * data[p + 9 + 2 * r]
            &&& forall|j: u32|
                j != k ==> (t.dom().contains(j) <==> #[trigger] mcf_table(data, n).dom().contains(j))
        }),
{
    let g = mcf_glyph(data, p);
    assert forall|r: int| 0 <= r < data[p + 6] && r < 16 implies #[trigger] g.rows[r] == data[p + 8
        + 2 * r] + 256 * data[p + 9 + 2 * r] by {}
}

/// A glyph of Unifont is as wide as what is lit of its cell, and advances by half of that and one
/// more; an empty cell advances by eight.
pub proof fn unifont_glyphs_are_as_wide_as_their_ink(data: Seq<u8>, p: int)
    requires
        data[p + 2] <= 16,
    ensures
        ({
            let g = ufb_glyph(data, p);
            let rows = raw_rows(data, p);
            &&& g.unifont && g.height == 16 && g.ascent == 14
            &&& g.width > 0 ==> g.advance == g.width / 2 + 1
            &&& g.width == 0 ==> g.advance == 8
            &&& (exists|col: int| 0 <= col < data[p + 2] && #[trigger] column_lit(rows, col))
                ==> g.width > 0
        }),
{
    let rows = raw_rows(data, p);
    lemma_some_ink(rows, data[p + 2] as nat);
}

proof fn lemma_some_ink(rows: Seq<u16>, n: nat)
    ensures
        leftmost(rows, n) is Some <==> rightmost(rows, n) is Some,
        leftmost(rows, n) is Some ==> leftmost(rows, n)->0 <= rightmost(rows, n)->0 < n,
        (exists|col: int| 0 <= col < n && #[trigger] column_lit(rows, col)) ==> leftmost(
            rows,
            n,
        ) is Some,
    decreases n,
{
    if n > 0 {
        lemma_some_ink(rows, (n - 1) as nat);
        if exists|col: int| 0 <= col < n && #[trigger] column_lit(rows, col) {
            let col = choose|col: int| 0 <= col < n && #[trigger] column_lit(rows, col);
            if col < n - 1 {
                assert(0 <= col < n - 1 && column_lit(rows, col));
            }
        }
    }
}

/// A character has its glyph from the default font, else from Unifont, else none.
pub proof fn the_default_font_comes_first(f: VanillaFont, ch: char)
    ensures
        f.default_table().dom().contains(ch as u32) ==> f.lookup(ch) == Some(
            f.default_table()[ch as u32],
        ),
        !f.default_table().dom().contains(ch as u32) && f.unifont_table().dom().contains(ch as u32)
            ==> f.lookup(ch) == Some(f.unifont_table()[ch as u32]),
        !f.default_table().dom().contains(ch as u32) && !f.unifont_table().dom().contains(
            ch as u32,
        ) ==> f.lookup(ch) is None,
{
}

} // verus!
