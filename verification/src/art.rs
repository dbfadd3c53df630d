//! The tile decoder and bitmap encoder: classification of raw archive
//! records, the fixed-shape diamond map tile, the run-length-encoded static
//! tile, and serialization of a decoded pixel grid to a bitmap byte stream.

use vstd::prelude::*;

use crate::byte_helpers::{
    le_bytes_of, le_uint_of, lemma_le_bytes_len, lemma_le_uint_bound, lemma_pow256_monotonic,
    pow256, u16s_of, u8vec_to_u16vec, uint_to_le_bytes, ByteBuffer,
};
use crate::error::ArtError;

verus! {

/// The 16-bit pixel value whose high bit marks a fully transparent pixel.
pub const TRANSPARENT: u16 = 0x8000;

/// Sequence indices below this bound name map-tile records.
pub const MAP_TILE_INDEX_BOUND: usize = 0x4000;

/// Sequence indices from `MAP_TILE_INDEX_BOUND` up to this bound name
/// static-tile records; anything at or above it is not a tile.
pub const STATIC_TILE_INDEX_BOUND: usize = 0x8000;

/// Payload size of every map-tile record, in bytes.
pub const MAP_TILE_RECORD_SIZE: usize = 2048;

/// A fixed 44-by-44 isometric diamond ground tile.
#[derive(Debug)]
pub struct MapTile {
    /// The record's leading 32-bit value, carried but not interpreted.
    pub header: u32,
    /// Exactly 1936 pixels, row-major, top row first.
    pub image: Vec<u16>,
}

/// The little-endian 16-bit value stored at byte offset `off` of `data`.
pub open spec fn le16_at(data: Seq<u8>, off: int) -> u16 {
    le_uint_of(data.subrange(off, off + 2)) as u16
}

/// A two-byte little-endian read is just the two bytes weighted by place.
pub proof fn lemma_le16_at(data: Seq<u8>, off: int)
    requires
        0 <= off,
        off + 2 <= data.len(),
    ensures
        le16_at(data, off) == data[off] + 256 * data[off + 1],
        le_uint_of(data.subrange(off, off + 2)) == data[off] + 256 * data[off + 1],
{
    let s = data.subrange(off, off + 2);
    assert(s.drop_first() =~= data.subrange(off + 1, off + 2));
    assert(s.drop_first().drop_first() =~= Seq::<u8>::empty());
    reveal_with_fuel(le_uint_of, 4);
    assert(le_uint_of(s.drop_first().drop_first()) == 0);
    assert(le_uint_of(s.drop_first()) == s[1] as nat);
    assert(le_uint_of(s) == s[0] as nat + 256 * le_uint_of(s.drop_first()));
    assert(le_uint_of(s) < 65536) by {
        lemma_le_uint_bound(s);
        lemma_pow256_monotonic(s.len(), 2);
        assert(pow256(2) == 65536) by {
            reveal_with_fuel(pow256, 3);
        }
    }
}

/// Half of the visible run width of diamond row `i`: the row's visible run
/// is twice this many pixels, centered in the 44-pixel row.
pub open spec fn half_width(i: int) -> int {
    if i < 22 {
        i + 1
    } else {
        44 - i
    }
}

/// Byte offset, within the pixel-data area that follows the 4-byte header,
/// where row `i`'s packed pixels begin.
pub open spec fn map_row_offset(i: int) -> int
    decreases i,
{
    if i <= 0 {
        0
    } else {
        map_row_offset(i - 1) + 4 * half_width(i - 1)
    }
}

/// Row starts never move backwards as the row index grows.
pub proof fn lemma_map_row_offset_monotonic(a: int, b: int)
    requires
        0 <= a <= b <= 44,
    ensures
        map_row_offset(a) <= map_row_offset(b),
    decreases b,
{
    if a < b {
        lemma_map_row_offset_monotonic(a, b - 1);
    }
}

/// All 44 diamond rows together occupy exactly 2024 bytes of pixel data.
pub proof fn lemma_map_row_offset_total()
    ensures
        map_row_offset(44) == 2024,
{
    reveal_with_fuel(map_row_offset, 45);
}

/// Pixel of the decoded map tile at row `i`, column `j`: the transparency
/// sentinel outside the row's visible span, and the next little-endian
/// 16-bit value of the packed stream inside it.
pub open spec fn map_pixel(data: Seq<u8>, i: int, j: int) -> u16 {
    let hw = half_width(i);
    if j < 22 - hw || j >= 22 + hw {
        TRANSPARENT
    } else {
        le16_at(data, 4 + map_row_offset(i) + 2 * (j - (22 - hw)))
    }
}

/// Row `i` of the decoded map tile: 44 pixels wide.
pub open spec fn map_row(data: Seq<u8>, i: int) -> Seq<u16> {
    Seq::new(44, |j: int| map_pixel(data, i, j))
}

/// The first `n` rows of the decoded map tile, concatenated.
pub open spec fn map_rows(data: Seq<u8>, n: int) -> Seq<u16>
    decreases n,
{
    if n <= 0 {
        Seq::empty()
    } else {
        map_rows(data, n - 1) + map_row(data, n - 1)
    }
}

/// The full decoded map-tile pixel grid.
pub open spec fn map_tile_pixels(data: Seq<u8>) -> Seq<u16> {
    map_rows(data, 44)
}

/// The first `n` map-tile rows hold exactly `44 * n` pixels.
pub proof fn lemma_map_rows_len(data: Seq<u8>, n: int)
    requires
        0 <= n,
    ensures
        map_rows(data, n).len() == 44 * n,
    decreases n,
{
    if n > 0 {
        lemma_map_rows_len(data, n - 1);
    }
}

/// Law: each diamond row is its visible pixels taken verbatim from the
/// packed stream, centered between two equal runs of the transparency
/// sentinel, `22 - half_width(i)` on each side.
pub proof fn lemma_map_row_shape(data: Seq<u8>, i: int)
    requires
        0 <= i < 44,
    ensures
        map_row(data, i).len() == 44,
        forall|j: int| 0 <= j < 22 - half_width(i) ==> map_row(data, i)[j] == TRANSPARENT,
        forall|j: int| 22 + half_width(i) <= j < 44 ==> map_row(data, i)[j] == TRANSPARENT,
        forall|j: int|
            22 - half_width(i) <= j < 22 + half_width(i) ==> map_row(data, i)[j] == le16_at(
                data,
                4 + map_row_offset(i) + 2 * (j - (22 - half_width(i))),
            ),
{
}

/// Appends `count` transparency-sentinel pixels.
fn push_transparent(image: &mut Vec<u16>, count: usize)
    ensures
        final(image)@ == old(image)@ + Seq::new(count as nat, |k: int| TRANSPARENT),
{
    let mut k: usize = 0;
    while k < count
        invariant
            k <= count,
            image@.len() == old(image)@.len() + k,
            image@ == old(image)@ + Seq::new(k as nat, |q: int| TRANSPARENT),
        decreases count - k,
    {
        proof {
            assert((image@ + Seq::new(1, |q: int| TRANSPARENT)) =~= old(image)@ + Seq::new(
                (k + 1) as nat,
                |q: int| TRANSPARENT,
            ));
            assert(image@ + Seq::new(1, |q: int| TRANSPARENT) =~= image@.push(TRANSPARENT));
        }
        image.push(TRANSPARENT);
        k = k + 1;
    }
    proof {
        assert(image@ =~= old(image)@ + Seq::new(count as nat, |q: int| TRANSPARENT));
    }
}

/// Appends every item of `src`.
fn push_all<T: Copy>(dst: &mut Vec<T>, src: &Vec<T>)
    ensures
        final(dst)@ == old(dst)@ + src@,
{
    let mut k: usize = 0;
    while k < src.len()
        invariant
            k <= src@.len(),
            dst@ == old(dst)@ + src@.subrange(0, k as int),
        decreases src@.len() - k,
    {
        proof {
            assert((old(dst)@ + src@.subrange(0, k as int)).push(src@[k as int]) =~= old(dst)@
                + src@.subrange(0, k + 1));
        }
        dst.push(src[k]);
        k = k + 1;
    }
    proof {
        assert(src@.subrange(0, src@.len() as int) =~= src@);
    }
}

/// Decodes a fixed-size map-tile record: a 4-byte header, then 44 diamond
/// rows of packed little-endian pixels. Any payload that is not exactly
/// `MAP_TILE_RECORD_SIZE` bytes is rejected; a well-sized payload always
/// decodes, to exactly 1936 pixels.
pub fn parse_map_tile(payload: Vec<u8>) -> (r: Result<MapTile, ArtError>)
    ensures
        payload@.len() == MAP_TILE_RECORD_SIZE ==> (r matches Ok(t) && t.header == le_uint_of(
            payload@.subrange(0, 4),
        ) && t.image@ == map_tile_pixels(payload@) && t.image@.len() == 1936),
        payload@.len() != MAP_TILE_RECORD_SIZE ==> (r matches Err(e) && e
            == ArtError::WrongRecordSize),
{
    if payload.len() != MAP_TILE_RECORD_SIZE {
        return Err(ArtError::WrongRecordSize);
    }
    let ghost data = payload@;
    let mut cursor = ByteBuffer(payload);
    let header_bytes = match cursor.read(4) {
        Ok(v) => v,
        Err(e) => {
            return Err(e);
        },
    };
    let header_val: u64 = crate::byte_helpers::bytes_to_le_uint(&header_bytes);
    proof {
        lemma_le_uint_bound(header_bytes@);
        lemma_pow256_monotonic(header_bytes@.len(), 4);
        assert(pow256(4) == 0x1_0000_0000) by {
            reveal_with_fuel(pow256, 6);
        }
    }
    let header: u32 = header_val as u32;

    let mut image: Vec<u16> = Vec::new();
    let mut i: usize = 0;
    while i < 44
        invariant
            i <= 44,
            cursor.wf(),
            cursor.data() == data,
            data.len() == 2048,
            cursor.position() == 4 + map_row_offset(i as int),
            image@ == map_rows(data, i as int),
        decreases 44 - i,
    {
        let hw: usize = if i >= 22 {
            44 - i
        } else {
            i + 1
        };
        proof {
            assert(hw == half_width(i as int));
            assert(map_row_offset(i as int + 1) == map_row_offset(i as int) + 4 * half_width(
                i as int,
            ));
            lemma_map_row_offset_monotonic(i as int + 1, 44);
            lemma_map_row_offset_total();
        }
        push_transparent(&mut image, 22 - hw);
        let chunk = match cursor.read(4 * hw) {
            Ok(v) => v,
            Err(e) => {
                return Err(e);
            },
        };
        let run_pixels = u8vec_to_u16vec(&chunk);
        push_all(&mut image, &run_pixels);
        push_transparent(&mut image, 22 - hw);
        proof {
            let start = 4 + map_row_offset(i as int);
            let pad = Seq::new((22 - hw) as nat, |q: int| TRANSPARENT);
            let row = pad + run_pixels@ + pad;
            assert(run_pixels@.len() == 2 * hw);
            assert forall|j: int| 0 <= j < 44 implies row[j] == map_pixel(data, i as int, j) by {
                if 22 - hw <= j < 22 + hw {
                    let k = j - (22 - hw);
                    assert(row[j] == run_pixels@[k]);
                    assert(run_pixels@[k] == (chunk@[2 * k] + 256 * chunk@[2 * k + 1]) as u16);
                    lemma_le16_at(data, start + 2 * k);
                    assert(chunk@[2 * k] == data[start + 2 * k]);
                    assert(chunk@[2 * k + 1] == data[start + 2 * k + 1]);
                }
            }
            assert(row =~= map_row(data, i as int));
            assert(image@ =~= map_rows(data, i as int + 1));
        }
        i = i + 1;
    }
    proof {
        lemma_map_rows_len(data, 44);
    }
    Ok(MapTile { header, image })
}

/// A variable-size run-length-encoded sprite.
#[derive(Debug)]
pub struct StaticTile {
    /// The record's leading size/flags field, carried but not interpreted.
    pub data_size: u16,
    /// The record's trigger field, carried but not interpreted.
    pub trigger: u16,
    /// Pixel columns; always in `(0, 1024)` once decoded.
    pub width: u16,
    /// Pixel rows; always in `(0, 1024)` once decoded.
    pub height: u16,
    /// Exactly `width * height` pixels, row-major, top row first.
    pub image: Vec<u16>,
}

/// Whether a static-tile header declares acceptable dimensions: both width
/// and height must be nonzero and below 1024.
pub open spec fn static_dims_valid(data: Seq<u8>) -> bool {
    &&& 0 < le16_at(data, 4) < 1024
    &&& 0 < le16_at(data, 6) < 1024
}

/// Absolute byte offset where row `i`'s run stream begins: the row's offset
/// table entry, counted from the end of the 8-byte header plus the
/// `height`-entry offset table.
pub open spec fn static_row_start(data: Seq<u8>, height: int, i: int) -> int {
    le16_at(data, 8 + 2 * i) + 8 + 2 * height
}

/// One row's run stream, decoded from byte offset `start` with `filled`
/// pixels of the row already produced: repeated `(padding, runLength)`
/// pairs, each followed by `runLength` explicit pixels, until a `(0, 0)`
/// terminator tops the row up to `width` with the transparency sentinel.
/// A pair that would push the row past its declared width is corrupt.
pub open spec fn spec_static_row(data: Seq<u8>, start: int, width: int, filled: int) -> Result<
    Seq<u16>,
    ArtError,
>
    decreases data.len() - start,
{
    if start < 0 || start + 4 > data.len() {
        Err(ArtError::OutOfBounds)
    } else {
        let padding = le16_at(data, start) as int;
        let run = le16_at(data, start + 2) as int;
        if padding == 0 && run == 0 {
            Ok(Seq::new((width - filled) as nat, |k: int| TRANSPARENT))
        } else if filled + padding + run > width {
            Err(ArtError::CorruptRunTable)
        } else if start + 4 + 2 * run > data.len() {
            Err(ArtError::OutOfBounds)
        } else {
            match spec_static_row(data, start + 4 + 2 * run, width, filled + padding + run) {
                Ok(rest) => Ok(
                    Seq::new(padding as nat, |k: int| TRANSPARENT) + u16s_of(
                        data.subrange(start + 4, start + 4 + 2 * run),
                    ) + rest,
                ),
                Err(e) => Err(e),
            }
        }
    }
}

/// A successfully decoded row always tops up to exactly `width` pixels.
pub proof fn lemma_static_row_len(data: Seq<u8>, start: int, width: int, filled: int)
    requires
        0 <= filled <= width,
        spec_static_row(data, start, width, filled) is Ok,
    ensures
        spec_static_row(data, start, width, filled)->Ok_0.len() == width - filled,
    decreases data.len() - start,
{
    let padding = le16_at(data, start) as int;
    let run = le16_at(data, start + 2) as int;
    if padding == 0 && run == 0 {
    } else {
        lemma_static_row_len(data, start + 4 + 2 * run, width, filled + padding + run);
    }
}

/// Rows `i` up to `height` of the static tile, each decoded from the start
/// its offset table entry names, concatenated.
pub open spec fn spec_static_rows(data: Seq<u8>, width: int, height: int, i: int) -> Result<
    Seq<u16>,
    ArtError,
>
    decreases height - i,
{
    if i >= height {
        Ok(Seq::empty())
    } else if 8 + 2 * i + 2 > data.len() {
        Err(ArtError::OutOfBounds)
    } else {
        match spec_static_row(data, static_row_start(data, height, i), width, 0) {
            Ok(row) => match spec_static_rows(data, width, height, i + 1) {
                Ok(rest) => Ok(row + rest),
                Err(e) => Err(e),
            },
            Err(e) => Err(e),
        }
    }
}

/// Successfully decoded rows `i..height` hold `width * (height - i)`
/// pixels in all.
pub proof fn lemma_static_rows_len(data: Seq<u8>, width: int, height: int, i: int)
    requires
        0 <= i <= height,
        0 < width,
        spec_static_rows(data, width, height, i) is Ok,
    ensures
        spec_static_rows(data, width, height, i)->Ok_0.len() == width * (height - i),
    decreases height - i,
{
    if i < height {
        let row = spec_static_row(data, static_row_start(data, height, i), width, 0);
        let rest = spec_static_rows(data, width, height, i + 1);
        assert(row is Ok && rest is Ok);
        assert(spec_static_rows(data, width, height, i)->Ok_0 == row->Ok_0 + rest->Ok_0);
        lemma_static_row_len(data, static_row_start(data, height, i), width, 0);
        lemma_static_rows_len(data, width, height, i + 1);
        assert(row->Ok_0.len() == width);
        assert(rest->Ok_0.len() == width * (height - i - 1));
        assert(width + width * (height - i - 1) == width * (height - i)) by (nonlinear_arith);
        assert(spec_static_rows(data, width, height, i)->Ok_0.len() == width * (height - i));
    } else {
        assert(spec_static_rows(data, width, height, i)->Ok_0.len() == 0);
        assert(width * (height - i) == 0) by (nonlinear_arith)
            requires height == i;
    }
}

/// Reads the next two bytes as a little-endian 16-bit value.
fn read_le_u16(cursor: &mut ByteBuffer) -> (r: Result<u16, ArtError>)
    requires
        old(cursor).wf(),
    ensures
        final(cursor).wf(),
        final(cursor).data() == old(cursor).data(),
        old(cursor).position() + 2 <= old(cursor).data().len() ==> (r matches Ok(v) && v
            == le16_at(old(cursor).data(), old(cursor).position() as int)
            && final(cursor).position() == old(cursor).position() + 2),
        old(cursor).position() + 2 > old(cursor).data().len() ==> (r matches Err(e) && e
            == ArtError::OutOfBounds && final(cursor).position() == old(cursor).position()),
{
    match cursor.read_le_uint(2) {
        Ok(v) => {
            proof {
                let s = old(cursor).data().subrange(
                    old(cursor).position() as int,
                    old(cursor).position() as int + 2,
                );
                lemma_le_uint_bound(s);
                lemma_pow256_monotonic(s.len(), 2);
                assert(pow256(2) == 65536) by {
                    reveal_with_fuel(pow256, 3);
                }
            }
            Ok(v as u16)
        },
        Err(e) => Err(e),
    }
}

/// Decodes one row's run stream from the cursor's current position,
/// appending exactly `width` pixels to `image` on success; on failure the
/// partially appended pixels are meaningless and the caller discards them.
#[verifier::loop_isolation(false)]
fn decode_static_row(cursor: &mut ByteBuffer, image: &mut Vec<u16>, width: u16) -> (r: Result<
    (),
    ArtError,
>)
    requires
        old(cursor).wf(),
        0 < width < 1024,
    ensures
        final(cursor).wf(),
        final(cursor).data() == old(cursor).data(),
        (match spec_static_row(
            old(cursor).data(),
            old(cursor).position() as int,
            width as int,
            0,
        ) {
            Ok(row) => r matches Ok(u) && final(image)@ == old(image)@ + row,
            Err(e) => r matches Err(e2) && e2 == e,
        }),
{
    let ghost data = old(cursor).data();
    let ghost start0 = old(cursor).position() as int;
    let ghost image_in = old(image)@;
    let mut filled: usize = 0;
    loop
        invariant
            cursor.wf(),
            cursor.data() == data,
            0 < width < 1024,
            filled <= width,
            (match spec_static_row(data, cursor.position() as int, width as int, filled as int) {
                Ok(rest) => (spec_static_row(data, start0, width as int, 0) matches Ok(full)
                    && image_in + full == image@ + rest),
                Err(e) => spec_static_row(data, start0, width as int, 0) == Err::<
                    Seq<u16>,
                    ArtError,
                >(e),
            }),
        decreases data.len() - cursor.position(),
    {
        let ghost pos = cursor.position() as int;
        let ghost image0 = image@;
        let padding: u16 = match read_le_u16(cursor) {
            Ok(v) => v,
            Err(e) => {
                return Err(e);
            },
        };
        let run: u16 = match read_le_u16(cursor) {
            Ok(v) => v,
            Err(e) => {
                return Err(e);
            },
        };
        if padding == 0 && run == 0 {
            proof {
                assert(spec_static_row(data, pos, width as int, filled as int) == Ok::<
                    Seq<u16>,
                    ArtError,
                >(Seq::new((width - filled) as nat, |k: int| TRANSPARENT)));
            }
            push_transparent(image, (width as usize) - filled);
            return Ok(());
        }
        if (filled + padding as usize) + run as usize > width as usize {
            return Err(ArtError::CorruptRunTable);
        }
        let chunk = match cursor.read(2 * (run as usize)) {
            Ok(v) => v,
            Err(e) => {
                return Err(e);
            },
        };
        let run_pixels = u8vec_to_u16vec(&chunk);
        push_transparent(image, padding as usize);
        push_all(image, &run_pixels);
        filled = filled + padding as usize + run as usize;
        proof {
            let padded = Seq::new(padding as nat, |k: int| TRANSPARENT);
            let pix = u16s_of(data.subrange(pos + 4, pos + 4 + 2 * (run as int)));
            assert(run_pixels@ =~= pix);
            match spec_static_row(data, cursor.position() as int, width as int, filled as int) {
                Ok(rest) => {
                    assert(spec_static_row(data, pos, width as int, (filled - padding
                        - run) as int) == Ok::<Seq<u16>, ArtError>(padded + pix + rest));
                    assert(image0 + (padded + pix + rest) =~= image@ + rest);
                },
                Err(e) => {},
            }
        }
    }
}

/// Decodes a static-tile record: an 8-byte header carrying the size/flags,
/// trigger, width and height fields, a `height`-entry row-offset table, and
/// one run stream per row. Rejects zero or out-of-range dimensions before
/// touching any run data; a decoded tile always holds exactly
/// `width * height` pixels.
#[verifier::loop_isolation(false)]
pub fn parse_static_tile(payload: Vec<u8>) -> (r: Result<StaticTile, ArtError>)
    ensures
        payload@.len() < 8 ==> (r matches Err(e) && e == ArtError::OutOfBounds),
        payload@.len() >= 8 && !static_dims_valid(payload@) ==> (r matches Err(e) && e
            == ArtError::InvalidDimensions),
        payload@.len() >= 8 && static_dims_valid(payload@) ==> (match spec_static_rows(
            payload@,
            le16_at(payload@, 4) as int,
            le16_at(payload@, 6) as int,
            0,
        ) {
            Ok(img) => r matches Ok(t) && t.data_size == le16_at(payload@, 0) && t.trigger
                == le16_at(payload@, 2) && t.width == le16_at(payload@, 4) && t.height == le16_at(
                payload@,
                6,
            ) && t.image@ == img && t.image@.len() == t.width * t.height,
            Err(e) => r matches Err(e2) && e2 == e,
        }),
{
    let ghost data = payload@;
    let mut cursor = ByteBuffer(payload);
    let data_size: u16 = match read_le_u16(&mut cursor) {
        Ok(v) => v,
        Err(e) => {
            return Err(e);
        },
    };
    let trigger: u16 = match read_le_u16(&mut cursor) {
        Ok(v) => v,
        Err(e) => {
            return Err(e);
        },
    };
    let width: u16 = match read_le_u16(&mut cursor) {
        Ok(v) => v,
        Err(e) => {
            return Err(e);
        },
    };
    let height: u16 = match read_le_u16(&mut cursor) {
        Ok(v) => v,
        Err(e) => {
            return Err(e);
        },
    };
    if width == 0 || width >= 1024 || height == 0 || height >= 1024 {
        return Err(ArtError::InvalidDimensions);
    }

    let mut image: Vec<u16> = Vec::new();
    let mut i: usize = 0;
    while i < height as usize
        invariant
            cursor.wf(),
            cursor.data() == data,
            data.len() >= 8,
            static_dims_valid(data),
            width == le16_at(data, 4),
            height == le16_at(data, 6),
            0 < width < 1024,
            0 < height < 1024,
            i <= height as usize,
            (match spec_static_rows(data, width as int, height as int, i as int) {
                Ok(rest) => (spec_static_rows(data, width as int, height as int, 0) matches Ok(
                    full,
                ) && full == image@ + rest),
                Err(e) => spec_static_rows(data, width as int, height as int, 0) == Err::<
                    Seq<u16>,
                    ArtError,
                >(e),
            }),
        decreases height as usize - i,
    {
        if cursor.seek(8 + 2 * i).is_err() {
            return Err(ArtError::OutOfBounds);
        }
        let offset: u16 = match read_le_u16(&mut cursor) {
            Ok(v) => v,
            Err(e) => {
                return Err(e);
            },
        };
        let row_start: usize = offset as usize + 8 + 2 * (height as usize);
        proof {
            assert(row_start == static_row_start(data, height as int, i as int));
        }
        if cursor.seek(row_start).is_err() {
            proof {
                assert(spec_static_row(data, row_start as int, width as int, 0) == Err::<
                    Seq<u16>,
                    ArtError,
                >(ArtError::OutOfBounds));
            }
            return Err(ArtError::OutOfBounds);
        }
        let ghost image0 = image@;
        match decode_static_row(&mut cursor, &mut image, width) {
            Ok(_) => {},
            Err(e) => {
                return Err(e);
            },
        }
        proof {
            let row = spec_static_row(data, row_start as int, width as int, 0)->Ok_0;
            match spec_static_rows(data, width as int, height as int, i + 1) {
                Ok(rest) => {
                    assert(spec_static_rows(data, width as int, height as int, i as int) == Ok::<
                        Seq<u16>,
                        ArtError,
                    >(row + rest));
                    assert(image0 + (row + rest) =~= image@ + rest);
                },
                Err(e) => {},
            }
        }
        i = i + 1;
    }
    proof {
        assert(spec_static_rows(data, width as int, height as int, height as int) == Ok::<
            Seq<u16>,
            ArtError,
        >(Seq::<u16>::empty()));
        assert(image@ + Seq::<u16>::empty() =~= image@);
        lemma_static_rows_len(data, width as int, height as int, 0);
    }
    Ok(StaticTile { data_size, trigger, width, height, image })
}

/// The outcome of classifying and decoding one raw archive record.
#[derive(Debug)]
pub enum DecodedRecord {
    /// The record decoded as a fixed diamond map tile.
    MapTile(MapTile),
    /// The record decoded as a run-length-encoded static tile.
    StaticTile(StaticTile),
    /// The record's sequence index names no tile format.
    Unrecognized,
}

/// Classifies a record by its sequence index and decodes it with the
/// matching parser: indices below `MAP_TILE_INDEX_BOUND` are map tiles,
/// indices below `STATIC_TILE_INDEX_BOUND` are static tiles, and anything
/// above is left unrecognized.
pub fn decode_record(index: usize, payload: Vec<u8>) -> (r: Result<DecodedRecord, ArtError>)
    ensures
        index >= STATIC_TILE_INDEX_BOUND ==> (r matches Ok(d) && d matches
            DecodedRecord::Unrecognized),
        index < MAP_TILE_INDEX_BOUND && payload@.len() == MAP_TILE_RECORD_SIZE ==> (r matches Ok(d)
            && d matches DecodedRecord::MapTile(t) && t.header == le_uint_of(payload@.subrange(0, 4))
            && t.image@ == map_tile_pixels(payload@)),
        index < MAP_TILE_INDEX_BOUND && payload@.len() != MAP_TILE_RECORD_SIZE ==> (r matches Err(e)
            && e == ArtError::WrongRecordSize),
        MAP_TILE_INDEX_BOUND <= index < STATIC_TILE_INDEX_BOUND ==> (match static_tile_of(
            payload@,
        ) {
            Ok(img) => r matches Ok(d) && d matches DecodedRecord::StaticTile(t) && t.data_size
                == le16_at(payload@, 0) && t.trigger == le16_at(payload@, 2) && t.width == le16_at(
                payload@,
                4,
            ) && t.height == le16_at(payload@, 6) && t.image@ == img,
            Err(e) => r matches Err(e2) && e2 == e,
        }),
{
    if index < MAP_TILE_INDEX_BOUND {
        match parse_map_tile(payload) {
            Ok(t) => Ok(DecodedRecord::MapTile(t)),
            Err(e) => Err(e),
        }
    } else if index < STATIC_TILE_INDEX_BOUND {
        match parse_static_tile(payload) {
            Ok(t) => Ok(DecodedRecord::StaticTile(t)),
            Err(e) => Err(e),
        }
    } else {
        Ok(DecodedRecord::Unrecognized)
    }
}

/// The image of the static tile encoded by `data`, or the error on which
/// its decode fails: dimension validation first, then the per-row run
/// streams.
pub open spec fn static_tile_of(data: Seq<u8>) -> Result<Seq<u16>, ArtError> {
    if data.len() < 8 {
        Err(ArtError::OutOfBounds)
    } else if !static_dims_valid(data) {
        Err(ArtError::InvalidDimensions)
    } else {
        spec_static_rows(data, le16_at(data, 4) as int, le16_at(data, 6) as int, 0)
    }
}

/// The fixed 54-byte bitmap file header for a `width` by `height` image at
/// 16 bits per pixel: signature, file size, reserved bytes, pixel-data
/// offset, info-header size, dimensions, plane count, bit depth, and six
/// zero fields (compression, image size, resolutions, palette counts).
pub open spec fn bmp_header(width: u32, height: u32) -> Seq<u8> {
    seq![0x42u8, 0x4du8] + le_bytes_of(2 * (width as nat) * (height as nat) + 54, 4) + le_bytes_of(
        0,
        4,
    ) + le_bytes_of(54, 4) + le_bytes_of(40, 4) + le_bytes_of(width as nat, 4) + le_bytes_of(
        height as nat,
        4,
    ) + seq![1u8, 0u8] + seq![16u8, 0u8] + le_bytes_of(0, 4) + le_bytes_of(0, 4) + le_bytes_of(
        0,
        4,
    ) + le_bytes_of(0, 4) + le_bytes_of(0, 4) + le_bytes_of(0, 4)
}

/// The header always spans exactly 54 bytes.
pub proof fn lemma_bmp_header_len(width: u32, height: u32)
    ensures
        bmp_header(width, height).len() == 54,
{
    lemma_le_bytes_len(2 * (width as nat) * (height as nat) + 54, 4);
    lemma_le_bytes_len(0, 4);
    lemma_le_bytes_len(54, 4);
    lemma_le_bytes_len(40, 4);
    lemma_le_bytes_len(width as nat, 4);
    lemma_le_bytes_len(height as nat, 4);
}

/// The first `j` pixels of source row `row`, each serialized as two
/// little-endian bytes, left to right.
pub open spec fn bmp_row_bytes(data: Seq<u16>, width: int, row: int, j: int) -> Seq<u8>
    decreases j,
{
    if j <= 0 {
        Seq::empty()
    } else {
        bmp_row_bytes(data, width, row, j - 1) + le_bytes_of(data[row * width + (j - 1)] as nat, 2)
    }
}

/// A serialized row prefix of `j` pixels spans `2 * j` bytes.
pub proof fn lemma_bmp_row_bytes_len(data: Seq<u16>, width: int, row: int, j: int)
    requires
        0 <= j,
    ensures
        bmp_row_bytes(data, width, row, j).len() == 2 * j,
    decreases j,
{
    if j > 0 {
        lemma_bmp_row_bytes_len(data, width, row, j - 1);
        lemma_le_bytes_len(data[row * width + (j - 1)] as nat, 2);
    }
}

/// The first `n` output rows of the pixel area. Output rows run bottom to
/// top: output row `k` serializes source row `height - 1 - k`.
pub open spec fn bmp_pixel_bytes(data: Seq<u16>, width: int, height: int, n: int) -> Seq<u8>
    decreases n,
{
    if n <= 0 {
        Seq::empty()
    } else {
        bmp_pixel_bytes(data, width, height, n - 1) + bmp_row_bytes(data, width, height - n, width)
    }
}

/// The first `n` serialized rows span `2 * width * n` bytes.
pub proof fn lemma_bmp_pixel_bytes_len(data: Seq<u16>, width: int, height: int, n: int)
    requires
        0 <= n,
        0 <= width,
    ensures
        bmp_pixel_bytes(data, width, height, n).len() == 2 * width * n,
    decreases n,
{
    if n > 0 {
        lemma_bmp_pixel_bytes_len(data, width, height, n - 1);
        lemma_bmp_row_bytes_len(data, width, height - n, width);
        assert(2 * width * (n - 1) + 2 * width == 2 * width * n) by (nonlinear_arith);
    } else {
        assert(2 * width * 0 == 0) by (nonlinear_arith);
    }
}

/// The complete bitmap byte stream: the 54-byte header, then every pixel
/// row bottom to top, each left to right as little-endian 16-bit values.
pub open spec fn bitmap_bytes(width: u32, height: u32, data: Seq<u16>) -> Seq<u8> {
    bmp_header(width, height) + bmp_pixel_bytes(data, width as int, height as int, height as int)
}

/// Serializes a `width` by `height` pixel grid into a self-contained
/// bitmap byte stream; the caller guarantees that the grid holds exactly
/// `width * height` pixels.
#[verifier::loop_isolation(false)]
pub fn to_bitmap(width: u32, height: u32, data: &Vec<u16>) -> (r: Vec<u8>)
    requires
        data@.len() == (width as int) * (height as int),
        2 * (width as int) * (height as int) + 54 <= u64::MAX,
    ensures
        r@ == bitmap_bytes(width, height, data@),
        r@.len() == 54 + 2 * (width as int) * (height as int),
{
    let file_size: u64 = 2 * (width as u64) * (height as u64) + 54;
    let n: usize = data.len();
    proof {
        assert(n == data@.len());
    }
    let mut out: Vec<u8> = Vec::new();
    out.push(0x42);
    out.push(0x4d);
    let piece = uint_to_le_bytes(file_size, 4);
    push_all(&mut out, &piece);
    let piece = uint_to_le_bytes(0, 4);
    push_all(&mut out, &piece);
    let piece = uint_to_le_bytes(54, 4);
    push_all(&mut out, &piece);
    let piece = uint_to_le_bytes(40, 4);
    push_all(&mut out, &piece);
    let piece = uint_to_le_bytes(width as u64, 4);
    push_all(&mut out, &piece);
    let piece = uint_to_le_bytes(height as u64, 4);
    push_all(&mut out, &piece);
    out.push(1);
    out.push(0);
    out.push(16);
    out.push(0);
    let mut zf: usize = 0;
    while zf < 6
        invariant
            zf <= 6,
            out@ == seq![0x42u8, 0x4du8] + le_bytes_of(file_size as nat, 4) + le_bytes_of(0, 4)
                + le_bytes_of(54, 4) + le_bytes_of(40, 4) + le_bytes_of(width as nat, 4)
                + le_bytes_of(height as nat, 4) + seq![1u8, 0u8] + seq![16u8, 0u8] + zero_fields(
                zf as int,
            ),
        decreases 6 - zf,
    {
        let piece = uint_to_le_bytes(0, 4);
        push_all(&mut out, &piece);
        proof {
            assert(zero_fields(zf + 1) =~= zero_fields(zf as int) + le_bytes_of(0, 4));
        }
        zf = zf + 1;
    }
    proof {
        assert(zero_fields(6) =~= le_bytes_of(0, 4) + le_bytes_of(0, 4) + le_bytes_of(0, 4)
            + le_bytes_of(0, 4) + le_bytes_of(0, 4) + le_bytes_of(0, 4)) by {
            reveal_with_fuel(zero_fields, 7);
        }
        assert(out@ =~= bmp_header(width, height));
    }

    let mut r: usize = 0;
    while r < height as usize
        invariant
            r <= height as usize,
            out@ == bmp_header(width, height) + bmp_pixel_bytes(
                data@,
                width as int,
                height as int,
                r as int,
            ),
        decreases height as usize - r,
    {
        let src: usize = (height as usize) - 1 - r;
        let mut j: usize = 0;
        while j < width as usize
            invariant
                j <= width as usize,
                r < height as usize,
                src == height as usize - 1 - r,
                out@ == bmp_header(width, height) + bmp_pixel_bytes(
                    data@,
                    width as int,
                    height as int,
                    r as int,
                ) + bmp_row_bytes(data@, width as int, src as int, j as int),
            decreases width as usize - j,
        {
            proof {
                assert(src * (width as int) + j < (width as int) * (height as int))
                    by (nonlinear_arith)
                    requires
                        0 <= j < width as int,
                        0 <= src < height as int,
                        src == height as int - 1 - r,
                ;
                assert(src * (width as int) + j < n);
            }
            let idx: usize = src * (width as usize) + j;
            let px: u16 = data[idx];
            let piece = uint_to_le_bytes(px as u64, 2);
            push_all(&mut out, &piece);
            j = j + 1;
        }
        proof {
            assert(bmp_pixel_bytes(data@, width as int, height as int, r + 1) =~= bmp_pixel_bytes(
                data@,
                width as int,
                height as int,
                r as int,
            ) + bmp_row_bytes(data@, width as int, src as int, width as int));
        }
        r = r + 1;
    }
    proof {
        lemma_bmp_header_len(width, height);
        lemma_bmp_pixel_bytes_len(data@, width as int, height as int, height as int);
    }
    out
}

/// The first `n` of the header's trailing zero fields, four bytes each.
pub open spec fn zero_fields(n: int) -> Seq<u8>
    decreases n,
{
    if n <= 0 {
        Seq::empty()
    } else {
        zero_fields(n - 1) + le_bytes_of(0, 4)
    }
}

/// Law: for a pixel grid of exactly `width * height` pixels, the encoded
/// bitmap spans exactly `width * height * 2 + 54` bytes and declares that
/// width and height in its two header dimension fields.
pub proof fn lemma_bitmap_declares_dimensions(width: u32, height: u32, data: Seq<u16>)
    requires
        data.len() == (width as int) * (height as int),
    ensures
        bitmap_bytes(width, height, data).len() == (width as int) * (height as int) * 2 + 54,
        bitmap_bytes(width, height, data).subrange(18, 22) == le_bytes_of(width as nat, 4),
        bitmap_bytes(width, height, data).subrange(22, 26) == le_bytes_of(height as nat, 4),
{
    lemma_bmp_header_len(width, height);
    lemma_bmp_pixel_bytes_len(data, width as int, height as int, height as int);
    lemma_le_bytes_len(2 * (width as nat) * (height as nat) + 54, 4);
    lemma_le_bytes_len(0, 4);
    lemma_le_bytes_len(54, 4);
    lemma_le_bytes_len(40, 4);
    lemma_le_bytes_len(width as nat, 4);
    lemma_le_bytes_len(height as nat, 4);
    assert(2 * (width as int) * (height as int) == (width as int) * (height as int) * 2)
        by (nonlinear_arith);
    assert(bitmap_bytes(width, height, data).subrange(18, 22) =~= le_bytes_of(width as nat, 4));
    assert(bitmap_bytes(width, height, data).subrange(22, 26) =~= le_bytes_of(height as nat, 4));
}

/// Law: encoding the pixel grid of any successfully decoded static tile
/// yields a bitmap whose header dimension fields hold the tile's own width
/// and height and whose total length is `width * height * 2 + 54`.
pub proof fn lemma_static_tile_bitmap_round_trip(data: Seq<u8>)
    requires
        static_tile_of(data) is Ok,
    ensures
        ({
            let w = le16_at(data, 4);
            let h = le16_at(data, 6);
            let img = static_tile_of(data)->Ok_0;
            &&& bitmap_bytes(w as u32, h as u32, img).len() == (w as int) * (h as int) * 2 + 54
            &&& bitmap_bytes(w as u32, h as u32, img).subrange(18, 22) == le_bytes_of(w as nat, 4)
            &&& bitmap_bytes(w as u32, h as u32, img).subrange(22, 26) == le_bytes_of(h as nat, 4)
        }),
{
    let w = le16_at(data, 4);
    let h = le16_at(data, 6);
    let img = static_tile_of(data)->Ok_0;
    lemma_static_rows_len(data, w as int, h as int, 0);
    lemma_bitmap_declares_dimensions(w as u32, h as u32, img);
}

} // verus!
