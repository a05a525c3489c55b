//! Size classes: which object size serves a request, and from which chunk it is carved.
//!
//! Sizes up to [`COMMON_SIZE_MAX`] are *common*: they are rounded to a multiple of eight and
//! carved from common chunks. Sizes up to [`LARGE_SIZE_MAX`] are *large*: they are rounded to one
//! of the sizes of [`REAL_LARGE_SIZES`] and carved from large chunks. Everything above is mapped
//! from the operating system on its own.
use vstd::arithmetic::power2::is_pow2;
use vstd::prelude::*;

verus! {

/// Bytes in a common chunk.
pub const COMMON_CHUNK_SIZE: usize = 65536;

/// The greatest common size.
pub const COMMON_SIZE_MAX: u16 = 1024;

/// The number of common size classes.
pub const COMMON_SIZE_TABLE_LEN: usize = 128;

/// Bytes in a large chunk.
pub const LARGE_CHUNK_SIZE: usize = 524288;

/// The number of common chunks that a large chunk splits into.
pub const COMMON_CHUNKS_IN_LARGE_CHUNK: usize = 8;

/// The greatest large size.
pub const LARGE_SIZE_MAX: usize = 102400;

/// The number of large size classes.
pub const REAL_NUMBER_OF_LARGE_OBJECT_VECTORS: usize = 88;

/// The id of the first block of large sizes.
pub const FIRST_ID: usize = 160;

/// The id of the last block of sizes below a large chunk.
pub const LAST_ID: usize = 302;

/// The length of the tables that are indexed by id.
pub const REAL_LARGE_SIZES_LEN: usize = 265;

/// The length of [`GENERATED_SIZES_AND_INDEXES`].
pub const GENERATED_SIZES_AND_INDEXES_LEN: usize = 143;

/// The upper end and the id of each block of sizes between the greatest common size and a large
/// chunk.
pub const GENERATED_SIZES_AND_INDEXES: [(usize, usize); 143] = [
    (1088, 160), (1152, 161), (1216, 162), (1280, 163), (1344, 164), (1408, 165), (1472, 166),
    (1536, 167), (1600, 168), (1664, 169), (1728, 170), (1792, 171), (1856, 172), (1920, 173),
    (1984, 174), (2048, 175), (2176, 176), (2304, 177), (2432, 178), (2560, 179), (2688, 180),
    (2816, 181), (2944, 182), (3072, 183), (3200, 184), (3328, 185), (3456, 186), (3584, 187),
    (3712, 188), (3840, 189), (3968, 190), (4096, 191), (4352, 192), (4608, 193), (4864, 194),
    (5120, 195), (5376, 196), (5632, 197), (5888, 198), (6144, 199), (6400, 200), (6656, 201),
    (6912, 202), (7168, 203), (7424, 204), (7680, 205), (7936, 206), (8192, 207), (8704, 208),
    (9216, 209), (9728, 210), (10240, 211), (10752, 212), (11264, 213), (11776, 214),
    (12288, 215), (12800, 216), (13312, 217), (13824, 218), (14336, 219), (14848, 220),
    (15360, 221), (15872, 222), (16384, 223), (17408, 224), (18432, 225), (19456, 226),
    (20480, 227), (21504, 228), (22528, 229), (23552, 230), (24576, 231), (25600, 232),
    (26624, 233), (27648, 234), (28672, 235), (29696, 236), (30720, 237), (31744, 238),
    (32768, 239), (34816, 240), (36864, 241), (38912, 242), (40960, 243), (43008, 244),
    (45056, 245), (47104, 246), (49152, 247), (51200, 248), (53248, 249), (55296, 250),
    (57344, 251), (59392, 252), (61440, 253), (63488, 254), (65536, 255), (69632, 256),
    (73728, 257), (77824, 258), (81920, 259), (86016, 260), (90112, 261), (94208, 262),
    (98304, 263), (102400, 264), (106496, 265), (110592, 266), (114688, 267), (118784, 268),
    (122880, 269), (126976, 270), (131072, 271), (139264, 272), (147456, 273), (155648, 274),
    (163840, 275), (172032, 276), (180224, 277), (188416, 278), (196608, 279), (204800, 280),
    (212992, 281), (221184, 282), (229376, 283), (237568, 284), (245760, 285), (253952, 286),
    (262144, 287), (278528, 288), (294912, 289), (311296, 290), (327680, 291), (344064, 292),
    (360448, 293), (376832, 294), (393216, 295), (409600, 296), (425984, 297), (442368, 298),
    (458752, 299), (475136, 300), (491520, 301), (507904, 302),];

/// The object size for each id. The entries below [`FIRST_ID`] are fillers that let an id serve as
/// an index.
pub const LARGE_SIZES_FOR_ID: [usize; 265] = [
    0, 0, 0, 0, 0, 0, 0, 0, 0, 0, 0, 0, 0, 0, 0, 0, 0, 0, 0, 0, 0, 0, 0, 0, 0, 0, 0, 0, 0, 0, 0,
    0, 0, 0, 0, 0, 0, 0, 0, 0, 0, 0, 0, 0, 0, 0, 0, 0, 0, 0, 0, 0, 0, 0, 0, 0, 0, 0, 0, 0, 0, 0,
    0, 0, 0, 0, 0, 0, 0, 0, 0, 0, 0, 0, 0, 0, 0, 0, 0, 0, 0, 0, 0, 0, 0, 0, 0, 0, 0, 0, 0, 0, 0,
    0, 0, 0, 0, 0, 0, 0, 0, 0, 0, 0, 0, 0, 0, 0, 0, 0, 0, 0, 0, 0, 0, 0, 0, 0, 0, 0, 0, 0, 0, 0,
    0, 0, 0, 0, 0, 0, 0, 0, 0, 0, 0, 0, 0, 0, 0, 0, 0, 0, 0, 0, 0, 0, 0, 0, 0, 0, 0, 0, 0, 0, 0,
    0, 0, 0, 0, 0, 1088, 1152, 1216, 1280, 1344, 1408, 1472, 1536, 1600, 1664, 1728, 1792, 1856,
    1920, 1984, 2048, 2176, 2304, 2432, 2560, 2688, 2816, 2944, 3072, 3200, 3328, 3456, 3584,
    3712, 3840, 3968, 4096, 4352, 4608, 4864, 5120, 5376, 5632, 5888, 6144, 6400, 6656, 6912,
    7168, 7424, 7680, 7936, 8192, 8704, 9216, 9728, 10240, 10752, 11264, 11776, 12288, 12800,
    13312, 13824, 14336, 14848, 15360, 15872, 16384, 17408, 18432, 19456, 20480, 21504, 22528,
    23552, 24576, 25600, 26624, 28672, 28672, 30720, 30720, 32768, 32768, 34816, 36864, 38912,
    43008, 43008, 47104, 47104, 51200, 51200, 57344, 57344, 57344, 65536, 65536, 65536, 65536,
    73728, 73728, 86016, 86016, 86016, 102400, 102400, 102400, 102400,];

/// The position in [`REAL_LARGE_SIZES`] for each id, with the same fillers.
pub const LOOKUP_TABLE: [usize; 265] = [
    0, 0, 0, 0, 0, 0, 0, 0, 0, 0, 0, 0, 0, 0, 0, 0, 0, 0, 0, 0, 0, 0, 0, 0, 0, 0, 0, 0, 0, 0, 0,
    0, 0, 0, 0, 0, 0, 0, 0, 0, 0, 0, 0, 0, 0, 0, 0, 0, 0, 0, 0, 0, 0, 0, 0, 0, 0, 0, 0, 0, 0, 0,
    0, 0, 0, 0, 0, 0, 0, 0, 0, 0, 0, 0, 0, 0, 0, 0, 0, 0, 0, 0, 0, 0, 0, 0, 0, 0, 0, 0, 0, 0, 0,
    0, 0, 0, 0, 0, 0, 0, 0, 0, 0, 0, 0, 0, 0, 0, 0, 0, 0, 0, 0, 0, 0, 0, 0, 0, 0, 0, 0, 0, 0, 0,
    0, 0, 0, 0, 0, 0, 0, 0, 0, 0, 0, 0, 0, 0, 0, 0, 0, 0, 0, 0, 0, 0, 0, 0, 0, 0, 0, 0, 0, 0, 0,
    0, 0, 0, 0, 0, 0, 1, 2, 3, 4, 5, 6, 7, 8, 9, 10, 11, 12, 13, 14, 15, 16, 17, 18, 19, 20, 21,
    22, 23, 24, 25, 26, 27, 28, 29, 30, 31, 32, 33, 34, 35, 36, 37, 38, 39, 40, 41, 42, 43, 44,
    45, 46, 47, 48, 49, 50, 51, 52, 53, 54, 55, 56, 57, 58, 59, 60, 61, 62, 63, 64, 65, 66, 67,
    68, 69, 70, 71, 72, 73, 74, 74, 75, 75, 76, 76, 77, 78, 79, 80, 80, 81, 81, 82, 82, 83, 83,
    83, 84, 84, 84, 84, 85, 85, 86, 86, 86, 87, 87, 87, 87,];

/// The large object sizes, in ascending order.
pub const REAL_LARGE_SIZES: [usize; 88] = [
    1088, 1152, 1216, 1280, 1344, 1408, 1472, 1536, 1600, 1664, 1728, 1792, 1856, 1920, 1984,
    2048, 2176, 2304, 2432, 2560, 2688, 2816, 2944, 3072, 3200, 3328, 3456, 3584, 3712, 3840,
    3968, 4096, 4352, 4608, 4864, 5120, 5376, 5632, 5888, 6144, 6400, 6656, 6912, 7168, 7424,
    7680, 7936, 8192, 8704, 9216, 9728, 10240, 10752, 11264, 11776, 12288, 12800, 13312, 13824,
    14336, 14848, 15360, 15872, 16384, 17408, 18432, 19456, 20480, 21504, 22528, 23552, 24576,
    25600, 26624, 28672, 30720, 32768, 34816, 36864, 38912, 43008, 47104, 51200, 57344, 65536,
    73728, 86016, 102400,];

/// The upper end of the block of sizes with the given id: the id holds the octave in its upper
/// bits and the sixteenth of the octave in its lower four.
pub open spec fn block_end(id: int) -> int {
    (17 + id % 16) * vstd::arithmetic::power2::pow2((id / 16 - 4) as nat)
}

/// The lower end of the block of sizes with the given id; the block starts right above it.
pub open spec fn block_start(id: int) -> int {
    (16 + id % 16) * vstd::arithmetic::power2::pow2((id / 16 - 4) as nat)
}

/// The id of the block that holds a large size.
pub open spec fn large_id(size: int) -> int {
    if size <= 2048 {
        160 + (size - 1025) / 64
    } else if size <= 4096 {
        176 + (size - 2049) / 128
    } else if size <= 8192 {
        192 + (size - 4097) / 256
    } else if size <= 16384 {
        208 + (size - 8193) / 512
    } else if size <= 32768 {
        224 + (size - 16385) / 1024
    } else if size <= 65536 {
        240 + (size - 32769) / 2048
    } else {
        256 + (size - 65537) / 4096
    }
}

/// The block ends of the nine octaves between the common sizes and a large chunk.
proof fn lemma_block_ends(id: int)
    requires
        160 <= id < 304,
    ensures
        id < 176 ==> block_end(id) == 1024 + 64 * (id - 159),
        176 <= id < 192 ==> block_end(id) == 2048 + 128 * (id - 175),
        192 <= id < 208 ==> block_end(id) == 4096 + 256 * (id - 191),
        208 <= id < 224 ==> block_end(id) == 8192 + 512 * (id - 207),
        224 <= id < 240 ==> block_end(id) == 16384 + 1024 * (id - 223),
        240 <= id < 256 ==> block_end(id) == 32768 + 2048 * (id - 239),
        256 <= id < 272 ==> block_end(id) == 65536 + 4096 * (id - 255),
        272 <= id < 288 ==> block_end(id) == 131072 + 8192 * (id - 271),
        288 <= id ==> block_end(id) == 262144 + 16384 * (id - 287),
        id < 176 ==> block_start(id) == 1024 + 64 * (id - 160),
        176 <= id < 192 ==> block_start(id) == 2048 + 128 * (id - 176),
        192 <= id < 208 ==> block_start(id) == 4096 + 256 * (id - 192),
        208 <= id < 224 ==> block_start(id) == 8192 + 512 * (id - 208),
        224 <= id < 240 ==> block_start(id) == 16384 + 1024 * (id - 224),
        240 <= id < 256 ==> block_start(id) == 32768 + 2048 * (id - 240),
        256 <= id < 272 ==> block_start(id) == 65536 + 4096 * (id - 256),
        272 <= id < 288 ==> block_start(id) == 131072 + 8192 * (id - 272),
        288 <= id ==> block_start(id) == 262144 + 16384 * (id - 288),
{
    vstd::arithmetic::power2::lemma2_to64();
    let j = id % 16;
    let unit = vstd::arithmetic::power2::pow2((id / 16 - 4) as nat) as int;
    if id < 176 {
        lemma_scaled_block(j, unit, 64);
    } else if id < 192 {
        lemma_scaled_block(j, unit, 128);
    } else if id < 208 {
        lemma_scaled_block(j, unit, 256);
    } else if id < 224 {
        lemma_scaled_block(j, unit, 512);
    } else if id < 240 {
        lemma_scaled_block(j, unit, 1024);
    } else if id < 256 {
        lemma_scaled_block(j, unit, 2048);
    } else if id < 272 {
        lemma_scaled_block(j, unit, 4096);
    } else if id < 288 {
        lemma_scaled_block(j, unit, 8192);
    } else {
        lemma_scaled_block(j, unit, 16384);
    }
}

proof fn lemma_scaled_block(j: int, unit: int, value: int)
    requires
        unit == value,
    ensures
        (17 + j) * unit == 17 * value + j * value,
        (16 + j) * unit == 16 * value + j * value,
{
    assert((17 + j) * value == 17 * value + j * value) by (nonlinear_arith);
    assert((16 + j) * value == 16 * value + j * value) by (nonlinear_arith);
}

/// The block that `large_id` names holds the size.
pub proof fn lemma_large_id(size: int)
    requires
        COMMON_SIZE_MAX < size <= LARGE_SIZE_MAX,
    ensures
        160 <= large_id(size) < 265,
        block_start(large_id(size)) < size <= block_end(large_id(size)),
{
    lemma_block_ends(large_id(size));
}

/// Finds the block of sizes that holds `size`. Each octave is split in sixteen blocks, which
/// bounds the loss of rounding up to the end of a block.
pub fn find_large_slot_id(size: usize) -> (id: usize)
    requires
        size >= 17,
    ensures
        id >= 64,
        block_start(id as int) < size <= block_end(id as int),
{
    let last: usize = size - 1;
    let mut octave: usize = 4;
    let mut unit: usize = 1;
    proof {
        vstd::arithmetic::power2::lemma2_to64();
    }
    while last / unit >= 32
        invariant
            4 <= octave,
            octave < 68,
            unit == vstd::arithmetic::power2::pow2((octave - 4) as nat),
            unit >= 1,
            last / unit >= 16,
            last == size - 1,
        decreases last / unit,
    {
        assert((last as int) / (unit as int) / 2 == (last as int) / (unit * 2)) by {
            vstd::arithmetic::div_mod::lemma_div_denominator(last as int, unit as int, 2);
        }
        assert(2 * unit <= last) by (nonlinear_arith)
            requires
                last / unit >= 32,
                unit >= 1,
        ;
        proof {
            vstd::arithmetic::power2::lemma_pow2_unfold((octave - 3) as nat);
        }
        unit = unit * 2;
        octave = octave + 1;
        proof {
            vstd::arithmetic::power2::lemma2_to64();
            if octave >= 68 {
                if octave > 68 {
                    vstd::arithmetic::power2::lemma_pow2_strictly_increases(64, (octave - 4) as nat);
                }
            }
        }
    }
    let part: usize = last / unit;
    assert(unit * part <= last < unit * (part + 1)) by (nonlinear_arith)
        requires
            part == last / unit,
            unit >= 1,
    ;
    assert(part + 1 == 17 + (part - 16));
    assert((16 + (part - 16)) * unit == unit * part) by (nonlinear_arith);
    assert((17 + (part - 16)) * unit == unit * (part + 1)) by (nonlinear_arith);
    octave * 16 + (part - 16)
}

/// The object size that serves the block of large sizes with the given id.
pub open spec fn real_size_of_id(id: int) -> int {
    LARGE_SIZES_FOR_ID@[id] as int
}

/// Block ends grow with the id, and every block end up to [`LARGE_SIZE_MAX`] is served by a real
/// size that is not below it.
proof fn lemma_real_size_of_id(id: int)
    requires
        160 <= id < 265,
    ensures
        block_end(id) <= real_size_of_id(id) <= LARGE_SIZE_MAX,
        0 <= LOOKUP_TABLE@[id] < 88,
        REAL_LARGE_SIZES@[LOOKUP_TABLE@[id] as int] == real_size_of_id(id),
{
    lemma_block_ends(id);
}

/// A real size falls in a block that is served by that very size.
proof fn lemma_real_size_is_fixed(i: int)
    requires
        0 <= i < 88,
    ensures
        COMMON_SIZE_MAX < REAL_LARGE_SIZES@[i] <= LARGE_SIZE_MAX,
        REAL_LARGE_SIZES@[i] % 64 == 0,
        LOOKUP_TABLE@[large_id(REAL_LARGE_SIZES@[i] as int)] == i,
        REAL_LARGE_SIZES@[i] * (LARGE_CHUNK_SIZE / REAL_LARGE_SIZES@[i]) <= LARGE_CHUNK_SIZE,
        5 <= LARGE_CHUNK_SIZE / REAL_LARGE_SIZES@[i] <= 481,
{
}

/// A block ends where the next one starts.
proof fn lemma_blocks_adjoin(id: int)
    requires
        64 <= id,
    ensures
        block_end(id) == block_start(id + 1),
        block_start(id) < block_end(id),
{
    let e = (id / 16 - 4) as nat;
    let p = vstd::arithmetic::power2::pow2(e) as int;
    vstd::arithmetic::power2::lemma_pow2_pos(e);
    assert((16 + id % 16) * p < (17 + id % 16) * p) by (nonlinear_arith)
        requires
            p > 0,
    ;
    if id % 16 == 15 {
        vstd::arithmetic::power2::lemma_pow2_unfold((e + 1) as nat);
        assert((id + 1) / 16 - 4 == e + 1);
        assert(32 * p == 16 * (2 * p)) by (nonlinear_arith);
    } else {
        assert((id + 1) / 16 == id / 16);
        assert((id + 1) % 16 == id % 16 + 1);
    }
}

proof fn lemma_blocks_ordered(low: int, high: int)
    requires
        64 <= low < high,
    ensures
        block_end(low) <= block_start(high),
    decreases high - low,
{
    lemma_blocks_adjoin(low);
    if low + 1 < high {
        lemma_blocks_adjoin(low + 1);
        lemma_blocks_ordered(low + 1, high);
    }
}

/// A size lies in one block only.
pub proof fn law_block_of_size_is_unique(size: int, id1: int, id2: int)
    requires
        64 <= id1,
        64 <= id2,
        block_start(id1) < size <= block_end(id1),
        block_start(id2) < size <= block_end(id2),
    ensures
        id1 == id2,
{
    if id1 < id2 {
        lemma_blocks_ordered(id1, id2);
    } else if id2 < id1 {
        lemma_blocks_ordered(id2, id1);
    }
}

/// The table of block ends lists, id by id, the ends of the blocks between the greatest common
/// size and a large chunk.
pub proof fn law_generated_sizes_are_block_ends(i: int)
    requires
        0 <= i < 143,
    ensures
        GENERATED_SIZES_AND_INDEXES@[i].1 == FIRST_ID + i,
        GENERATED_SIZES_AND_INDEXES@[i].0 == block_end(FIRST_ID + i),
{
    lemma_block_ends(FIRST_ID + i);
}

/// Lists the ends of the blocks above the common sizes, each with its id, up to the last one that
/// ends below a large chunk. Sizes are tried one by one.
pub fn generate_blocks() -> (r: [(usize, usize); 143])
    ensures
        forall|i: int|
            0 <= i < 143 ==> #[trigger] r@[i] == (
                block_end(FIRST_ID + i) as usize,
                (FIRST_ID + i) as usize,
            ),
        r@ == GENERATED_SIZES_AND_INDEXES@,
{
    let mut arr: [(usize, usize); 143] = [(0, 0);143];
    let mut arr_len: usize = 0;
    let mut size: usize = COMMON_SIZE_MAX as usize;
    let first_id: usize = find_large_slot_id(size);
    let mut prev_id: usize = first_id;
    proof {
        vstd::arithmetic::power2::lemma2_to64();
        assert(block_start(159) == 992 && block_end(159) == 1024);
        law_block_of_size_is_unique(1024, first_id as int, 159);
    }
    while size != LARGE_CHUNK_SIZE + 1
        invariant
            1024 <= size <= 524289,
            first_id == 159,
            159 <= prev_id <= 303,
            block_start(prev_id as int) < (if size == 1024 {
                1024
            } else {
                size - 1
            }) <= block_end(prev_id as int),
            arr_len == (if prev_id == 159 {
                0
            } else {
                prev_id - 160
            }),
            forall|i: int|
                0 <= i < arr_len ==> #[trigger] arr@[i] == (
                    block_end(160 + i) as usize,
                    (160 + i) as usize,
                ),
        decreases 524289 - size,
    {
        let slot_id: usize = find_large_slot_id(size);
        proof {
            lemma_block_ends(303);
            if prev_id > 159 {
                lemma_block_ends(prev_id as int);
            }
        }
        if slot_id == prev_id {
            size = size + 1;
            continue ;
        }
        proof {
            if size == 1024 {
                law_block_of_size_is_unique(1024, slot_id as int, prev_id as int);
            }
            lemma_blocks_adjoin(prev_id as int);
            if size <= block_end(prev_id as int) {
                law_block_of_size_is_unique(size as int, slot_id as int, prev_id as int);
            }
            lemma_blocks_adjoin(prev_id + 1);
            law_block_of_size_is_unique(size as int, slot_id as int, prev_id + 1);
            if prev_id == 303 {
                assert(false);
            }
        }
        if prev_id != first_id {
            arr[arr_len] = (size - 1, slot_id - 1);
            arr_len = arr_len + 1;
        }
        prev_id = slot_id;
        size = size + 1;
    }
    proof {
        lemma_block_ends(303);
        law_block_of_size_is_unique(524288, prev_id as int, 303);
        assert forall|i: int| 0 <= i < 143 implies arr@[i] == GENERATED_SIZES_AND_INDEXES@[i] by {
            law_generated_sizes_are_block_ends(i);
        }
        assert(arr@ =~= GENERATED_SIZES_AND_INDEXES@);
    }
    arr
}

/// The real size of a block is the end of a block, the greatest one that fits as often in a large
/// chunk as the block's own end does.
pub proof fn law_real_size_wastes_nothing(id: int, other: int)
    requires
        FIRST_ID <= id < 265,
        FIRST_ID <= other < 265,
    ensures
        LARGE_CHUNK_SIZE as int / real_size_of_id(id) == LARGE_CHUNK_SIZE as int / block_end(id),
        LARGE_CHUNK_SIZE as int / block_end(other) == LARGE_CHUNK_SIZE as int / block_end(id)
            ==> block_end(other) <= real_size_of_id(id),
{
    lemma_block_ends(id);
    lemma_block_ends(other);
    lemma_same_number_of_blocks(id);
    law_generated_sizes_are_block_ends(id - 160);
    law_generated_sizes_are_block_ends(other - 160);
    let chosen = real_size_of_id(id);
    if chosen < block_end(other) {
        let r = large_id(chosen);
        lemma_block_ends(r);
        assert(block_end(r) == chosen);
        if other > r + 1 {
            lemma_blocks_ordered(r + 1, other);
            lemma_blocks_adjoin(other);
        }
        if other <= r {
            if other < r {
                lemma_blocks_ordered(other, r);
                lemma_blocks_adjoin(r);
            }
        }
        let next = block_end(r + 1);
        lemma_block_ends(r + 1);
        lemma_same_number_of_blocks(r + 1);
        law_generated_sizes_are_block_ends(r + 1 - 160);
        assert(LARGE_CHUNK_SIZE as int / block_end(other) <= LARGE_CHUNK_SIZE as int / next) by {
            vstd::arithmetic::div_mod::lemma_div_is_ordered_by_denominator(
                LARGE_CHUNK_SIZE as int,
                next,
                block_end(other),
            );
        }
    }
}

proof fn lemma_same_number_of_blocks(id: int)
    requires
        160 <= id < 265,
    ensures
        LARGE_CHUNK_SIZE as int / (LARGE_SIZES_FOR_ID@[id] as int) == LARGE_CHUNK_SIZE as int / (
        GENERATED_SIZES_AND_INDEXES@[id - 160].0 as int),
        160 <= large_id(LARGE_SIZES_FOR_ID@[id] as int) < 265,
        large_id(LARGE_SIZES_FOR_ID@[id] as int) < 264 ==> LARGE_CHUNK_SIZE as int / (
        LARGE_SIZES_FOR_ID@[large_id(LARGE_SIZES_FOR_ID@[id] as int) + 1] as int)
            < LARGE_CHUNK_SIZE as int / (LARGE_SIZES_FOR_ID@[id] as int),
{
    lemma_same_quotient(id);
    lemma_real_size_of_id(id);
    lemma_next_real_size(LOOKUP_TABLE@[id] as int);
}

proof fn lemma_same_quotient(id: int)
    requires
        160 <= id < 265,
    ensures
        LARGE_CHUNK_SIZE as int / (LARGE_SIZES_FOR_ID@[id] as int) == LARGE_CHUNK_SIZE as int / (
        GENERATED_SIZES_AND_INDEXES@[id - 160].0 as int),
{
}

proof fn lemma_next_real_size(i: int)
    requires
        0 <= i < 88,
    ensures
        large_id(REAL_LARGE_SIZES@[i] as int) < 264 ==> i < 87,
        i < 87 ==> LARGE_SIZES_FOR_ID@[large_id(REAL_LARGE_SIZES@[i] as int) + 1]
            == REAL_LARGE_SIZES@[i + 1],
        i < 87 ==> LARGE_CHUNK_SIZE as int / (REAL_LARGE_SIZES@[i + 1] as int)
            < LARGE_CHUNK_SIZE as int / (REAL_LARGE_SIZES@[i] as int),
{
}

/// The object size of each block, and the vector that its objects are kept in, by the id of the
/// block.
pub struct RealLargeSizesAndLookupTable {
    pub sizes: [usize; 265],
    pub lookup_table: [usize; 265],
}

/// The number of objects of the size that ends a block in a large chunk.
spec fn blocks_at(i: int) -> int {
    LARGE_CHUNK_SIZE as int / (GENERATED_SIZES_AND_INDEXES@[i].0 as int)
}

/// Blocks are served by one vector as long as their ends fit equally often in a large chunk.
proof fn lemma_lookup(i: int)
    requires
        0 <= i < 105,
    ensures
        LOOKUP_TABLE@[160] == 0,
        i > 0 ==> LOOKUP_TABLE@[160 + i] == LOOKUP_TABLE@[159 + i] + (if blocks_at(i) == blocks_at(
            i - 1,
        ) {
            0int
        } else {
            1
        }),
        i > 0 ==> blocks_at(i) <= blocks_at(i - 1),
        GENERATED_SIZES_AND_INDEXES@[i].0 <= LARGE_SIZE_MAX,
        GENERATED_SIZES_AND_INDEXES@[105].0 > LARGE_SIZE_MAX,
        GENERATED_SIZES_AND_INDEXES@[i].0 > 0,
{
}

/// Blocks that are served by one vector have one object size; it is the end of the last one.
proof fn lemma_last_of_group(i: int)
    requires
        0 <= i < 105,
    ensures
        i < 104 && blocks_at(i + 1) == blocks_at(i) ==> LARGE_SIZES_FOR_ID@[160 + i]
            == LARGE_SIZES_FOR_ID@[161 + i],
        i == 104 || blocks_at(i + 1) != blocks_at(i) ==> LARGE_SIZES_FOR_ID@[160 + i]
            == GENERATED_SIZES_AND_INDEXES@[i].0,
{
}

/// What is below the first block is not used.
proof fn lemma_filler(id: int)
    requires
        0 <= id < 160,
    ensures
        LARGE_SIZES_FOR_ID@[id] == 0,
        LOOKUP_TABLE@[id] == 0,
{
}

/// Finds for each block of large sizes the object size that serves it: the greatest end of a block
/// that fits as often in a large chunk.
pub fn generate_real_large_sizes_and_lookup_table() -> (r: RealLargeSizesAndLookupTable)
    ensures
        r.sizes@ == LARGE_SIZES_FOR_ID@,
        r.lookup_table@ == LOOKUP_TABLE@,
{
    let mut sizes: [usize; 265] = [0;265];
    let mut lookup_table: [usize; 265] = [0;265];
    let mut i: usize = 0;
    let mut real_idx: usize = 0;
    let mut group_start: usize = 0;
    let mut prev_blocks: usize = LARGE_CHUNK_SIZE / 1088;
    proof {
        lemma_lookup(0);
    }
    while i < 105
        invariant
            i <= 105,
            group_start <= i,
            group_start < i || i == 0,
            prev_blocks == blocks_at(
                if i == 0 {
                    0
                } else {
                    i - 1
                },
            ),
            real_idx == LOOKUP_TABLE@[160 + (if i == 0 {
                0
            } else {
                i - 1
            })],
            real_idx <= i,
            forall|k: int| 0 <= k < 160 ==> #[trigger] sizes@[k] == 0,
            forall|k: int| 0 <= k < 160 ==> #[trigger] lookup_table@[k] == 0,
            forall|k: int| 160 <= k < 160 + i ==> #[trigger] lookup_table@[k] == LOOKUP_TABLE@[k],
            forall|k: int|
                160 <= k < 160 + group_start ==> #[trigger] sizes@[k] == LARGE_SIZES_FOR_ID@[k],
            forall|k: int|
                group_start <= k < i ==> #[trigger] LARGE_SIZES_FOR_ID@[160 + k]
                    == LARGE_SIZES_FOR_ID@[159 + i],
        decreases 105 - i,
    {
        proof {
            lemma_lookup(i as int);
            if i > 0 {
                lemma_last_of_group(i - 1);
            }
        }
        let size: usize = GENERATED_SIZES_AND_INDEXES[i].0;
        let blocks: usize = LARGE_CHUNK_SIZE / size;
        if blocks != prev_blocks {
            let winner: usize = GENERATED_SIZES_AND_INDEXES[i - 1].0;
            fill_group(&mut sizes, group_start, i, winner);
            assert forall|k: int| 160 <= k < 160 + i implies #[trigger] sizes@[k]
                == LARGE_SIZES_FOR_ID@[k] by {
                if k >= 160 + group_start {
                    assert(LARGE_SIZES_FOR_ID@[160 + (k - 160)] == LARGE_SIZES_FOR_ID@[159 + i]);
                }
            }
            group_start = i;
            prev_blocks = blocks;
            real_idx = real_idx + 1;
        }
        lookup_table[i + FIRST_ID] = real_idx;
        i = i + 1;
    }
    proof {
        lemma_last_of_group(104);
    }
    let winner: usize = GENERATED_SIZES_AND_INDEXES[i - 1].0;
    fill_group(&mut sizes, group_start, i, winner);
    proof {
        assert forall|k: int| 0 <= k < 265 implies sizes@[k] == LARGE_SIZES_FOR_ID@[k]
            && lookup_table@[k] == LOOKUP_TABLE@[k] by {
            if k < 160 {
                lemma_filler(k);
            } else if k >= 160 + group_start {
                assert(LARGE_SIZES_FOR_ID@[160 + (k - 160)] == LARGE_SIZES_FOR_ID@[159 + i]);
            }
        }
        assert(sizes@ =~= LARGE_SIZES_FOR_ID@);
        assert(lookup_table@ =~= LOOKUP_TABLE@);
    }
    RealLargeSizesAndLookupTable { sizes, lookup_table }
}

/// Sets the size of a group of blocks.
fn fill_group(sizes: &mut [usize; 265], from: usize, to: usize, winner: usize)
    requires
        from <= to <= 105,
    ensures
        forall|k: int|
            0 <= k < 265 ==> #[trigger] final(sizes)@[k] == (if FIRST_ID + from <= k < FIRST_ID
                + to {
                winner
            } else {
                old(sizes)@[k]
            }),
{
    let mut j: usize = from;
    while j < to
        invariant
            from <= j <= to <= 105,
            forall|k: int|
                0 <= k < 265 ==> #[trigger] sizes@[k] == (if 160 + from <= k < 160 + j {
                    winner
                } else {
                    old(sizes)@[k]
                }),
        decreases to - j,
    {
        sizes[j + FIRST_ID] = winner;
        j = j + 1;
    }
}

/// The block id of a large size and the object size that serves it.
pub fn large_size_to_id_and_real_size(size: usize) -> (r: (usize, usize))
    requires
        COMMON_SIZE_MAX < size <= LARGE_SIZE_MAX,
    ensures
        r.0 == large_id(size as int),
        r.1 == real_size_of_id(large_id(size as int)),
        size <= r.1 <= LARGE_SIZE_MAX,
        FIRST_ID <= r.0 < REAL_LARGE_SIZES_LEN,
{
    proof {
        lemma_large_id(size as int);
        lemma_real_size_of_id(large_id(size as int));
    }
    let id: usize = find_large_slot_id(size);
    proof {
        law_block_of_size_is_unique(size as int, id as int, large_id(size as int));
    }
    (id, LARGE_SIZES_FOR_ID[id])
}

/// A large size that is a power of two is an object size itself.
pub proof fn law_large_power_of_two_is_exact(size: int)
    requires
        COMMON_SIZE_MAX < size <= LARGE_SIZE_MAX,
        is_pow2(size),
    ensures
        real_size_of_id(large_id(size)) == size,
{
    reveal_with_fuel(is_pow2, 18);
    assert(size == 2048 || size == 4096 || size == 8192 || size == 16384 || size == 32768 || size
        == 65536);
}

/// How a request is served.
#[derive(Copy, Clone, Debug, PartialEq, Eq, Structural)]
pub enum SizeClass {
    Common,
    Large,
    ExtraLarge,
}

impl SizeClass {
    /// The way a request of `size` bytes is served.
    pub open spec fn of(size: int) -> SizeClass {
        if size <= COMMON_SIZE_MAX {
            SizeClass::Common
        } else if size <= LARGE_SIZE_MAX {
            SizeClass::Large
        } else {
            SizeClass::ExtraLarge
        }
    }

    /// Tells how a request of `size` bytes is served.
    pub fn define(size: usize) -> (r: SizeClass)
        ensures
            r == SizeClass::of(size as int),
    {
        if size <= COMMON_SIZE_MAX as usize {
            SizeClass::Common
        } else if size <= LARGE_SIZE_MAX {
            SizeClass::Large
        } else {
            SizeClass::ExtraLarge
        }
    }

    /// The name of the class.
    pub fn name(&self) -> (r: &'static str)
        ensures
            *self is Common ==> r@ == "Common"@,
            *self is Large ==> r@ == "Large"@,
            *self is ExtraLarge ==> r@ == "ExtraLarge"@,
    {
        match self {
            SizeClass::Common => "Common",
            SizeClass::Large => "Large",
            SizeClass::ExtraLarge => "ExtraLarge",
        }
    }
}

/// The position of a common size among the common classes.
pub fn common_size_to_index(size: u16) -> (r: usize)
    requires
        size >= 1,
    ensures
        r == (size - 1) / 8,
{
    ((size - 1) / 8) as usize
}

/// The size class that serves requests of `size` bytes: classes below 128 are common, the others
/// are large.
#[verifier::opaque]
pub open spec fn class_of(size: int) -> int {
    if size <= COMMON_SIZE_MAX {
        (size - 1) / 8
    } else {
        128 + LOOKUP_TABLE@[large_id(size)]
    }
}

/// The object size of a class.
#[verifier::opaque]
pub open spec fn class_size(class: int) -> int {
    if class < 128 {
        8 * (class + 1)
    } else {
        REAL_LARGE_SIZES@[class - 128] as int
    }
}

/// The size of the chunks that a class is carved from.
pub open spec fn chunk_size_of_class(class: int) -> int {
    if class < 128 {
        COMMON_CHUNK_SIZE as int
    } else {
        LARGE_CHUNK_SIZE as int
    }
}

/// The number of objects that a chunk of a class is carved into.
#[verifier::opaque]
pub open spec fn slots_of_class(class: int) -> int {
    chunk_size_of_class(class) / class_size(class)
}

/// What holds of every size class.
pub proof fn lemma_class(class: int)
    requires
        0 <= class < 216,
    ensures
        8 <= class_size(class) <= 102400,
        class < 128 <==> class_size(class) <= 1024,
        class_size(class) % 8 == 0,
        class_of(class_size(class)) == class,
        5 <= slots_of_class(class) <= 8192,
        slots_of_class(class) * class_size(class) <= chunk_size_of_class(class),
{
    reveal(class_of);
    reveal(class_size);
    reveal(slots_of_class);
    if class < 128 {
        let size = 8 * (class + 1);
        assert(64 <= 65536int / size <= 8192 && (65536int / size) * size <= 65536)
            by (nonlinear_arith)
            requires
                8 <= size <= 1024,
        ;
    } else {
        lemma_real_size_is_fixed(class - 128);
        let size = class_size(class);
        assert((524288int / size) * size == size * (524288int / size)) by (nonlinear_arith);
    }
}

/// What holds of the class of every common or large size.
pub proof fn lemma_class_of(size: int)
    requires
        1 <= size <= 102400,
    ensures
        0 <= class_of(size) < 216,
        size <= class_size(class_of(size)),
        class_of(size) < 128 <==> size <= 1024,
        size <= 1024 ==> class_of(size) == (size - 1) / 8,
        size <= 1024 ==> class_size(class_of(size)) == (size + 7) / 8 * 8,
        size > 1024 ==> class_of(size) == 128 + LOOKUP_TABLE@[large_id(size)],
        size > 1024 ==> class_size(class_of(size)) == real_size_of_id(large_id(size)),
{
    reveal(class_of);
    reveal(class_size);
    if size > 1024 {
        lemma_large_id(size);
        lemma_real_size_of_id(large_id(size));
    }
}

/// The size class of a common or large size.
pub fn size_to_class(size: usize) -> (r: usize)
    requires
        1 <= size <= LARGE_SIZE_MAX,
    ensures
        r == class_of(size as int),
        r < 216,
{
    proof {
        lemma_class_of(size as int);
    }
    if size <= COMMON_SIZE_MAX as usize {
        common_size_to_index(size as u16)
    } else {
        let (id, _) = large_size_to_id_and_real_size(size);
        COMMON_SIZE_TABLE_LEN + LOOKUP_TABLE[id]
    }
}

/// The object size of a size class.
pub fn size_of_class(class: usize) -> (r: usize)
    requires
        class < 216,
    ensures
        r == class_size(class as int),
{
    proof {
        reveal(class_size);
    }
    if class < COMMON_SIZE_TABLE_LEN {
        8 * (class + 1)
    } else {
        REAL_LARGE_SIZES[class - COMMON_SIZE_TABLE_LEN]
    }
}

/// The number of objects that a chunk of the class is carved into.
pub fn slots_in_chunk(class: usize) -> (r: usize)
    requires
        class < 216,
    ensures
        r == slots_of_class(class as int),
{
    proof {
        lemma_class(class as int);
        reveal(slots_of_class);
    }
    if class < COMMON_SIZE_TABLE_LEN {
        COMMON_CHUNK_SIZE / size_of_class(class)
    } else {
        LARGE_CHUNK_SIZE / size_of_class(class)
    }
}

/// The size that is handed out for a request of `size` bytes.
pub open spec fn recommended(size: int) -> int {
    if size <= 0 {
        0
    } else if size <= LARGE_SIZE_MAX {
        class_size(class_of(size))
    } else {
        size
    }
}

/// Rounds a size up to the one that is handed out for it.
pub fn recommended_size(min_size: usize) -> (r: usize)
    ensures
        r == recommended(min_size as int),
        min_size <= r,
        1 <= min_size <= COMMON_SIZE_MAX ==> r == 8 * ((min_size - 1) / 8 + 1),
        COMMON_SIZE_MAX < min_size <= LARGE_SIZE_MAX ==> r == real_size_of_id(
            large_id(min_size as int),
        ),
{
    if min_size == 0 {
        return 0;
    }
    if min_size <= LARGE_SIZE_MAX {
        proof {
            lemma_class_of(min_size as int);
        }
        if min_size <= COMMON_SIZE_MAX as usize {
            return (min_size + 7) / 8 * 8;
        }
        return large_size_to_id_and_real_size(min_size).1;
    }
    min_size
}

/// Rounding a size twice changes nothing more.
pub proof fn law_recommended_is_idempotent(size: int)
    ensures
        recommended(recommended(size)) == recommended(size),
        size <= 0 || size <= recommended(size),
{
    if 1 <= size <= LARGE_SIZE_MAX {
        lemma_class_of(size);
        lemma_class(class_of(size));
    }
}

/// A greater request is never served by a smaller object.
pub proof fn law_recommended_is_monotonic(small: int, great: int)
    requires
        small <= great,
    ensures
        recommended(small) <= recommended(great),
{
    if 1 <= small && small <= LARGE_SIZE_MAX {
        lemma_class_of(small);
        lemma_class(class_of(small));
        if great <= LARGE_SIZE_MAX {
            lemma_class_of(great);
            if great > COMMON_SIZE_MAX && small > COMMON_SIZE_MAX {
                lemma_large_id(small);
                lemma_large_id(great);
                assert(large_id(small) <= large_id(great));
                lemma_real_sizes_ascend(large_id(small), large_id(great));
            }
        }
    } else if 1 <= small {
    } else if 1 <= great && great <= LARGE_SIZE_MAX {
        lemma_class_of(great);
    }
}

proof fn lemma_real_sizes_ascend(low: int, high: int)
    requires
        160 <= low <= high < 265,
    ensures
        real_size_of_id(low) <= real_size_of_id(high),
    decreases high - low,
{
    if low < high {
        lemma_real_sizes_ascend(low + 1, high);
        assert(LARGE_SIZES_FOR_ID@[low] <= LARGE_SIZES_FOR_ID@[low + 1]);
    }
}

/// The addresses of the common chunks that a large chunk consists of, in ascending order.
pub fn split_large_chunk_to_common(ptr: usize) -> (r: [usize; 8])
    requires
        ptr + LARGE_CHUNK_SIZE <= usize::MAX,
    ensures
        forall|i: int| 0 <= i < 8 ==> #[trigger] r@[i] == ptr + i * COMMON_CHUNK_SIZE,
{
    [
        ptr,
        ptr + COMMON_CHUNK_SIZE,
        ptr + 2 * COMMON_CHUNK_SIZE,
        ptr + 3 * COMMON_CHUNK_SIZE,
        ptr + 4 * COMMON_CHUNK_SIZE,
        ptr + 5 * COMMON_CHUNK_SIZE,
        ptr + 6 * COMMON_CHUNK_SIZE,
        ptr + 7 * COMMON_CHUNK_SIZE,
    ]
}

} // verus!
