//! Compression of blocks.

use crate::bytes;
use crate::error::Error;
use crate::format::{COMPRESSION_NONE, COMPRESSION_ZSTD};
use vstd::prelude::*;

verus! {

/// `std::io::Error`, which the functions of `zstd` fail with. Nothing is said of its
/// values.
#[verifier::external_type_specification]
#[verifier::external_body]
pub struct ExIoError(std::io::Error);

/// The zstd frame of some data at a level.
pub uninterp spec fn zstd_frame(data: Seq<u8>, level: int) -> Seq<u8>;

/// What some bytes decompress to, if they are zstd frames.
pub uninterp spec fn zstd_content(frames: Seq<u8>) -> Option<Seq<u8>>;

/// `zstd::bulk::compress`: where it succeeds, the result is one frame that depends on
/// the data and the level alone. It starts with a magic number, so it is not
/// empty, and decompressing it gives the data back. It can fail for want of
/// memory; when it does is left open. The buffer is allocated somewhat larger than
/// the data, and `Vec` panics on more than `isize::MAX`.
pub assume_specification[ zstd::bulk::compress ](data: &[u8], level: i32) -> (r: std::io::Result<
    Vec<u8>,
>)
    requires
        data@.len() <= isize::MAX / 2,
    ensures
        r is Ok ==> r->Ok_0@ == zstd_frame(data@, level as int),
        r is Ok ==> r->Ok_0@.len() > 0,
        r is Ok ==> zstd_content(r->Ok_0@) == Some(data@),
;

/// `zstd::bulk::decompress`: where it succeeds, it returns what the frames hold. It
/// succeeds on a frame that `zstd::bulk::compress` makes of no more than `capacity`
/// bytes. When it succeeds on other frames is left open: it depends on how a frame was
/// made and on how much room there is beyond its content. The buffer is allocated
/// with `capacity` bytes, and `Vec` panics on more than `isize::MAX`.
pub assume_specification[ zstd::bulk::decompress ](data: &[u8], capacity: usize) -> (r:
    std::io::Result<Vec<u8>>)
    requires
        capacity <= isize::MAX,
    ensures
        r is Ok ==> zstd_content(data@) == Some(r->Ok_0@),
        forall|raw: Seq<u8>, level: i32|
            #[trigger] zstd_frame(raw, level as int) == data@ && raw.len() <= capacity ==> r is Ok,
;

/// Whether some bytes are the frame that is made of `raw` at some level.
pub open spec fn is_frame_of(frame: Seq<u8>, raw: Seq<u8>) -> bool {
    exists|level: i32| #[trigger] zstd_frame(raw, level as int) == frame
}

/// Whether some bytes are a frame that is made of no more than `size` bytes, so that
/// decompressing them is sure to succeed.
pub open spec fn is_sound(frames: Seq<u8>, size: int) -> bool {
    &&& zstd_content(frames) is Some
    &&& zstd_content(frames)->0.len() <= size <= isize::MAX
    &&& is_frame_of(frames, zstd_content(frames)->0)
}

/// Whether unpacking a block is sure to succeed, as far as decompression goes.
pub open spec fn is_sound_block(compression: u8, block: Seq<u8>, size: int) -> bool {
    compression == COMPRESSION_ZSTD ==> is_sound(block, size)
}

/// Whether a block that stands for `raw` under the given compression decompresses
/// to it.
pub open spec fn faithful(compression: u8, block: Seq<u8>, raw: Seq<u8>) -> bool {
    compression == COMPRESSION_ZSTD ==> block.len() > 0 && zstd_content(block) == Some(raw)
        && is_frame_of(block, raw)
}

/// The block of some bytes.
pub open spec fn packed(compression: u8, level: int, raw: Seq<u8>) -> Seq<u8> {
    if compression == COMPRESSION_NONE {
        raw
    } else {
        zstd_frame(raw, level)
    }
}

/// What frames decompress to, where that takes no more than `size` bytes.
pub open spec fn inflated(frames: Seq<u8>, size: int) -> Result<Seq<u8>, Error> {
    match zstd_content(frames) {
        Some(raw) => if raw.len() <= size && size <= isize::MAX {
            Ok(raw)
        } else {
            Err(Error::Decompress)
        },
        None => Err(Error::Decompress),
    }
}

/// What a block holds, where that takes no more than `size` bytes.
pub open spec fn unpacked(compression: u8, block: Seq<u8>, size: int) -> Result<Seq<u8>, Error> {
    if compression == COMPRESSION_NONE {
        Ok(block)
    } else if compression == COMPRESSION_ZSTD {
        inflated(block, size)
    } else {
        Err(Error::UnknownCompression)
    }
}

/// Unpacking a faithful block gives back what was packed.
pub proof fn lemma_unpacked(compression: u8, level: int, raw: Seq<u8>)
    requires
        compression == COMPRESSION_NONE || compression == COMPRESSION_ZSTD,
        raw.len() <= isize::MAX,
        faithful(compression, packed(compression, level, raw), raw),
    ensures
        unpacked(compression, packed(compression, level, raw), raw.len() as int) == Ok::<
            Seq<u8>,
            Error,
        >(raw),
        is_sound_block(compression, packed(compression, level, raw), raw.len() as int),
{
}

/// Whether compressing some data came out as an error: it is one of the ways in which a call
/// of `zstd::bulk::compress` can end.
pub open spec fn is_refused(data: Seq<u8>, level: i32) -> bool {
    exists|d: &[u8], e: std::io::Error|
        d@ == data && #[trigger] call_ensures(
            zstd::bulk::compress,
            (d, level),
            Err::<Vec<u8>, std::io::Error>(e),
        )
}

/// Whether compressing some data fails: there is too much of it, or the compressor refused it.
pub open spec fn fails(data: Seq<u8>, level: int) -> bool {
    data.len() > isize::MAX / 2 || is_refused(data, level as i32)
}

/// Calls a compressor.
fn call_compressor<F: Fn(&[u8], i32) -> std::io::Result<Vec<u8>>>(f: F, raw: &[u8], level: i32) -> (r:
    std::io::Result<Vec<u8>>)
    requires
        call_requires(f, (raw, level)),
    ensures
        call_ensures(f, (raw, level), r),
{
    f(raw, level)
}

/// Compresses data to a frame.
pub fn deflate(raw: &[u8], level: i32) -> (r: Result<Vec<u8>, Error>)
    ensures
        match r {
            Ok(v) => v@ == zstd_frame(raw@, level as int) && v@.len() > 0 && zstd_content(v@)
                == Some(raw@) && is_frame_of(v@, raw@),
            Err(e) => e == Error::Compress && fails(raw@, level as int),
        },
        raw@.len() > isize::MAX / 2 ==> r is Err,
{
    if raw.len() > isize::MAX as usize / 2 {
        return Err(Error::Compress);
    }
    match call_compressor(zstd::bulk::compress, raw, level) {
        Ok(v) => Ok(v),
        Err(_) => Err(Error::Compress),
    }
}

/// Decompresses frames whose content takes no more than `size` bytes. It is sure to
/// succeed on a frame that is made of so many bytes; on others it may fail.
pub fn inflate(frames: &[u8], size: usize) -> (r: Result<Vec<u8>, Error>)
    ensures
        match r {
            Ok(v) => inflated(frames@, size as int) == Ok::<Seq<u8>, Error>(v@),
            Err(e) => e == Error::Decompress && !is_sound(frames@, size as int),
        },
{
    if size > isize::MAX as usize {
        return Err(Error::Decompress);
    }
    match zstd::bulk::decompress(frames, size) {
        Ok(v) => check_size(v, size),
        Err(_) => Err(Error::Decompress),
    }
}

/// Refuses content of more than `size` bytes.
pub fn check_size(content: Vec<u8>, size: usize) -> (r: Result<Vec<u8>, Error>)
    ensures
        r == (if content@.len() <= size {
            Ok(content)
        } else {
            Err(Error::Decompress)
        }),
{
    if content.len() <= size {
        Ok(content)
    } else {
        Err(Error::Decompress)
    }
}

/// The bytes that a block of the given compression holds, where that takes no
/// more than `size` bytes. A block that does not stem from compression here may be
/// refused.
pub fn unpack(compression: u8, block: &[u8], size: usize) -> (r: Result<Vec<u8>, Error>)
    ensures
        match r {
            Ok(v) => unpacked(compression, block@, size as int) == Ok::<Seq<u8>, Error>(v@),
            Err(e) => {
                ||| unpacked(compression, block@, size as int) == Err::<Seq<u8>, Error>(e)
                ||| e == Error::Decompress && !is_sound_block(compression, block@, size as int)
            },
        },
{
    if compression == COMPRESSION_NONE {
        let out: Vec<u8> = bytes::copy_range(block, 0, block.len());
        assert(block@.subrange(0, block@.len() as int) =~= block@);
        Ok(out)
    } else if compression == COMPRESSION_ZSTD {
        inflate(block, size)
    } else {
        Err(Error::UnknownCompression)
    }
}

} // verus!
