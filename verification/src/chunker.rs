//! Where a file is cut into chunks.
use vstd::prelude::*;

verus! {

/// The smallest, the average and the largest size of a chunk of a file of
/// `size` bytes: larger files get larger chunks.
pub open spec fn chunk_sizes(size: nat) -> (u32, u32, u32) {
    if size <= 131_072 {
        (8_192, 16_384, 65_536)
    } else if size <= 16_777_216 {
        (32_768, 65_536, 262_144)
    } else if size <= 1_073_741_824 {
        (65_536, 262_144, 1_048_576)
    } else {
        (524_288, 1_048_576, 4_194_304)
    }
}

/// Returns the `(min, avg, max)` chunk sizes for an input of the given size.
pub fn cdc_parameters(size: usize) -> (sizes: (u32, u32, u32))
    ensures
        sizes == chunk_sizes(size as nat),
        size <= 131_072 ==> sizes == (8_192u32, 16_384u32, 65_536u32),
        131_072 < size <= 16_777_216 ==> sizes == (32_768u32, 65_536u32, 262_144u32),
        16_777_216 < size <= 1_073_741_824 ==> sizes == (65_536u32, 262_144u32, 1_048_576u32),
        1_073_741_824 < size ==> sizes == (524_288u32, 1_048_576u32, 4_194_304u32),
{
    if size <= 131_072 {
        (8 * 1024, 16 * 1024, 64 * 1024)
    } else if size <= 16_777_216 {
        (32 * 1024, 64 * 1024, 256 * 1024)
    } else if size <= 1_073_741_824 {
        (64 * 1024, 256 * 1024, 1024 * 1024)
    } else {
        (512 * 1024, 1024 * 1024, 4 * 1024 * 1024)
    }
}

/// Where FastCDC cuts `bytes`, given the smallest, the average and the largest
/// size of a chunk: the offset and the length of each chunk, in order.
pub uninterp spec fn fastcdc_chunks(
    bytes: Seq<u8>,
    min_size: usize,
    avg_size: usize,
    max_size: usize,
) -> Seq<(usize, usize)>;

/// Whether `chunks`, pairs of an offset and a length, cover `size` bytes from
/// the first to the last without gap or overlap, none of them being empty.
pub open spec fn covers(chunks: Seq<(usize, usize)>, size: nat) -> bool {
    &&& chunks.len() == 0 <==> size == 0
    &&& chunks.len() > 0 ==> chunks[0].0 == 0 && chunks.last().0 + chunks.last().1 == size
    &&& forall|i: int| 0 <= i < chunks.len() ==> (#[trigger] chunks[i]).1 > 0
    &&& forall|i: int| 0 < i < chunks.len() ==> #[trigger] adjoins(chunks, i)
}

/// Whether the chunk at position `i` starts where the one before it ends.
pub open spec fn adjoins(chunks: Seq<(usize, usize)>, i: int) -> bool {
    chunks[i].0 == chunks[i - 1].0 + chunks[i - 1].1
}

/// Whether every chunk is at most `max_size` long and every one but the last at
/// least `min_size`.
pub open spec fn sized(chunks: Seq<(usize, usize)>, min_size: nat, max_size: nat) -> bool {
    &&& forall|i: int| 0 <= i < chunks.len() ==> (#[trigger] chunks[i]).1 <= max_size
    &&& forall|i: int| 0 <= i < chunks.len() - 1 ==> (#[trigger] chunks[i]).1 >= min_size
}

/// `FastCDC::new` of `fastcdc::v2020`, iterated to its end. The chunks depend on
/// the arguments alone; they cover the bytes and keep to the sizes. The numeric
/// bounds on the sizes are those that the constructor asserts. An average above
/// the largest size would have the scan run past it, and an odd smallest size
/// would not be kept to, as candidates are tried two bytes at a time.
#[verifier::external_body]
fn cut(bytes: &[u8], min_size: usize, avg_size: usize, max_size: usize) -> (chunks: Vec<
    (usize, usize),
>)
    requires
        64 <= min_size <= 1_048_576,
        256 <= avg_size <= 4_194_304,
        1024 <= max_size <= 16_777_216,
        min_size <= max_size,
        avg_size <= max_size,
        min_size % 2 == 0,
    ensures
        chunks@ == fastcdc_chunks(bytes@, min_size, avg_size, max_size),
        covers(chunks@, bytes@.len()),
        sized(chunks@, min_size as nat, max_size as nat),
{
    fastcdc::v2020::FastCDC::new(bytes, min_size, avg_size, max_size)
        .map(|chunk| (chunk.offset, chunk.length))
        .collect()
}

/// Where a file with the contents `bytes` is cut.
pub open spec fn file_chunks(bytes: Seq<u8>) -> Seq<(usize, usize)> {
    let sizes = chunk_sizes(bytes.len());
    fastcdc_chunks(bytes, sizes.0 as usize, sizes.1 as usize, sizes.2 as usize)
}

/// Cuts the contents of a file into chunks.
pub fn chunk_file(bytes: &[u8]) -> (chunks: Vec<(usize, usize)>)
    ensures
        chunks@ == file_chunks(bytes@),
        chunks@ == fastcdc_chunks(
            bytes@,
            chunk_sizes(bytes@.len()).0 as usize,
            chunk_sizes(bytes@.len()).1 as usize,
            chunk_sizes(bytes@.len()).2 as usize,
        ),
        covers(chunks@, bytes@.len()),
        sized(
            chunks@,
            chunk_sizes(bytes@.len()).0 as nat,
            chunk_sizes(bytes@.len()).2 as nat,
        ),
{
    let (min_size, avg_size, max_size) = cdc_parameters(bytes.len());
    cut(bytes, min_size as usize, avg_size as usize, max_size as usize)
}

/// The bytes of the chunk at position `i`.
pub open spec fn chunk_bytes(bytes: Seq<u8>, chunks: Seq<(usize, usize)>, i: int) -> Seq<u8> {
    bytes.subrange(chunks[i].0 as int, chunks[i].0 + chunks[i].1)
}

/// What the chunks from position `i` on hold, one after the other.
pub open spec fn joined(bytes: Seq<u8>, chunks: Seq<(usize, usize)>, i: int) -> Seq<u8>
    decreases chunks.len() - i,
{
    if i >= chunks.len() {
        seq![]
    } else {
        chunk_bytes(bytes, chunks, i) + joined(bytes, chunks, i + 1)
    }
}

/// Each chunk lies within the bytes that the chunks cover.
pub proof fn chunks_in_bounds(chunks: Seq<(usize, usize)>, size: nat, i: int)
    requires
        covers(chunks, size),
        0 <= i < chunks.len(),
    ensures
        chunks[i].0 + chunks[i].1 <= size,
    decreases chunks.len() - i,
{
    if i + 1 < chunks.len() {
        chunks_in_bounds(chunks, size, i + 1);
        assert(adjoins(chunks, i + 1));
    }
}

/// Chunks that cover the bytes give them back when joined.
pub proof fn chunks_rejoin(bytes: Seq<u8>, chunks: Seq<(usize, usize)>)
    requires
        covers(chunks, bytes.len()),
    ensures
        joined(bytes, chunks, 0) == bytes,
{
    if chunks.len() == 0 {
        assert(joined(bytes, chunks, 0) =~= bytes);
    } else {
        lemma_joined_suffix(bytes, chunks, 0);
        assert(bytes.skip(0) =~= bytes);
    }
}

proof fn lemma_joined_suffix(bytes: Seq<u8>, chunks: Seq<(usize, usize)>, i: int)
    requires
        covers(chunks, bytes.len()),
        0 <= i < chunks.len(),
    ensures
        joined(bytes, chunks, i) == bytes.skip(chunks[i].0 as int),
    decreases chunks.len() - i,
{
    chunks_in_bounds(chunks, bytes.len(), i);
    if i + 1 == chunks.len() {
        assert(joined(bytes, chunks, i + 1) =~= Seq::<u8>::empty());
    } else {
        lemma_joined_suffix(bytes, chunks, i + 1);
        assert(adjoins(chunks, i + 1));
    }
    assert(joined(bytes, chunks, i) =~= bytes.skip(chunks[i].0 as int));
}

/// The sizes lie apart: smallest, average, largest.
pub proof fn chunk_sizes_ascend(size: nat)
    ensures
        0 < chunk_sizes(size).0 < chunk_sizes(size).1 < chunk_sizes(size).2,
{
}

/// Files fall into four classes by size, up to 128 KiB, up to 16 MiB, up to 1 GiB and
/// above, and all files of a class have the same chunk sizes.
pub proof fn chunk_sizes_by_class(size: nat)
    ensures
        size <= 128 * 1024 ==> chunk_sizes(size) == (8_192u32, 16_384u32, 65_536u32),
        128 * 1024 < size <= 16 * 1024 * 1024 ==> chunk_sizes(size) == (
            32_768u32,
            65_536u32,
            262_144u32,
        ),
        16 * 1024 * 1024 < size <= 1024 * 1024 * 1024 ==> chunk_sizes(size) == (
            65_536u32,
            262_144u32,
            1_048_576u32,
        ),
        1024 * 1024 * 1024 < size ==> chunk_sizes(size) == (524_288u32, 1_048_576u32, 4_194_304u32),
{
}

/// Every file is cut by its content: the cuts are those that FastCDC makes in its bytes
/// with the chunk sizes of its class, whatever the file holds.
pub proof fn files_are_cut_by_content(bytes: Seq<u8>)
    ensures
        bytes.len() <= 128 * 1024 ==> file_chunks(bytes) == fastcdc_chunks(
            bytes,
            8_192,
            16_384,
            65_536,
        ),
        128 * 1024 < bytes.len() <= 16 * 1024 * 1024 ==> file_chunks(bytes) == fastcdc_chunks(
            bytes,
            32_768,
            65_536,
            262_144,
        ),
        16 * 1024 * 1024 < bytes.len() <= 1024 * 1024 * 1024 ==> file_chunks(bytes)
            == fastcdc_chunks(bytes, 65_536, 262_144, 1_048_576),
        1024 * 1024 * 1024 < bytes.len() ==> file_chunks(bytes) == fastcdc_chunks(
            bytes,
            524_288,
            1_048_576,
            4_194_304,
        ),
{
}

/// A larger file never gets smaller chunks.
pub proof fn chunk_sizes_grow(size: nat, larger: nat)
    requires
        size <= larger,
    ensures
        chunk_sizes(size).0 <= chunk_sizes(larger).0,
        chunk_sizes(size).1 <= chunk_sizes(larger).1,
        chunk_sizes(size).2 <= chunk_sizes(larger).2,
{
}

/// As every chunk but the last has the smallest size at least, there are no more
/// of them than that size allows.
pub proof fn chunk_count_bounded(chunks: Seq<(usize, usize)>, size: nat, min_size: nat, max_size: nat)
    requires
        covers(chunks, size),
        sized(chunks, min_size, max_size),
        chunks.len() > 0,
    ensures
        (chunks.len() - 1) * min_size < size,
{
    let last = chunks.len() - 1;
    lemma_offset_at_least(chunks, size, min_size, max_size, last);
    assert(chunks[last].1 > 0);
}

proof fn lemma_offset_at_least(
    chunks: Seq<(usize, usize)>,
    size: nat,
    min_size: nat,
    max_size: nat,
    i: int,
)
    requires
        covers(chunks, size),
        sized(chunks, min_size, max_size),
        0 <= i < chunks.len(),
    ensures
        i * min_size <= chunks[i].0,
    decreases i,
{
    if i > 0 {
        lemma_offset_at_least(chunks, size, min_size, max_size, i - 1);
        assert(adjoins(chunks, i));
        assert(chunks[i - 1].1 >= min_size);
        assert(i * min_size == (i - 1) * min_size + min_size) by (nonlinear_arith);
    } else {
        assert(i * min_size == 0) by (nonlinear_arith)
            requires
                i == 0,
        ;
    }
}

} // verus!
