//! Tensor preparation: interleaved RGB bytes become a channel-major
//! plane buffer, ready for normalization.
//!
//! The resized image arrives as interleaved `R G B R G B …` bytes. The
//! model wants channel-major order: all red values, then all green, then
//! all blue. Extraction works row-independently, so callers may shard it
//! freely; the scalar loop here is the reference semantics that any
//! vectorized path must reproduce value for value. The final division by
//! 255 into floating point happens outside the verified core, one value
//! at a time, changing no ordering.

use vstd::prelude::*;
use vstd::string::StringExecFns;

use crate::pool::BufferPool;
use crate::types::ProcessingError;

verus! {

/// One color plane of an interleaved 3-channel pixel buffer: element `i`
/// is byte `3 * i + channel` of the input.
pub open spec fn channel_plane(pixels: Seq<u8>, channel: int) -> Seq<u8> {
    Seq::new((pixels.len() / 3) as nat, |i: int| pixels[3 * i + channel])
}

/// The full channel-major buffer: the three planes in channel order.
pub open spec fn planar_of(pixels: Seq<u8>) -> Seq<u8> {
    channel_plane(pixels, 0) + channel_plane(pixels, 1) + channel_plane(pixels, 2)
}

/// Rejects zero-sized images before any resize work is attempted.
pub fn check_image_dimensions(width: u32, height: u32) -> (r: Result<(), ProcessingError>)
    ensures
        r is Ok <==> (width > 0 && height > 0),
        r is Err ==> r->Err_0 is ImageLoadError,
{
    if width == 0 || height == 0 {
        Err(ProcessingError::ImageLoadError(String::from_str("image has zero width or height")))
    } else {
        Ok(())
    }
}

/// Extracts one color channel from interleaved RGB bytes, in pixel
/// order.
pub fn extract_channel(pixels: &Vec<u8>, channel: usize) -> (out: Vec<u8>)
    requires
        channel < 3,
        pixels@.len() % 3 == 0,
    ensures
        out@ == channel_plane(pixels@, channel as int),
{
    let n = pixels.len() / 3;
    let mut out: Vec<u8> = Vec::new();
    let mut k: usize = 0;
    while k < n
        invariant
            channel < 3,
            pixels@.len() % 3 == 0,
            n == pixels@.len() / 3,
            pixels@.len() <= usize::MAX,
            0 <= k <= n,
            out@.len() == k,
            forall|j: int| 0 <= j < k ==> out@[j] == pixels@[3 * j + channel],
        decreases n - k,
    {
        proof {
            vstd::arithmetic::div_mod::lemma_fundamental_div_mod(pixels@.len() as int, 3);
            assert(3 * k + channel < pixels@.len());
        }
        out.push(pixels[3 * k + channel]);
        k = k + 1;
    }
    proof {
        assert(out@ =~= channel_plane(pixels@, channel as int));
    }
    out
}

/// A verified byte-for-byte copy.
fn copy_bytes(v: &Vec<u8>) -> (out: Vec<u8>)
    ensures
        out@ == v@,
{
    let mut out: Vec<u8> = Vec::new();
    let mut i: usize = 0;
    while i < v.len()
        invariant
            0 <= i <= v@.len(),
            out@.len() == i,
            forall|j: int| 0 <= j < i ==> out@[j] == v@[j],
        decreases v@.len() - i,
    {
        out.push(v[i]);
        i = i + 1;
    }
    proof {
        assert(out@ =~= v@);
    }
    out
}

/// Builds the channel-major input buffer for a resized interleaved RGB
/// image, reusing a pooled buffer for the allocation and storing a copy
/// of the result back in the pool under its size. Preparation itself
/// cannot fail; the `Result` mirrors the pipeline's error channel.
pub fn prepare_input_buffer(pixels: &Vec<u8>, pool: &mut BufferPool) -> (r: Result<
    Vec<u8>,
    ProcessingError,
>)
    requires
        pixels@.len() % 3 == 0,
        old(pool).wf(),
    ensures
        final(pool).wf(),
        r is Ok,
        r->Ok_0@ == planar_of(pixels@),
        r->Ok_0@.len() == pixels@.len(),
        final(pool).buffers().dom().contains(pixels@.len() as int),
        final(pool).buffers()[pixels@.len() as int] == planar_of(pixels@),
{
    let buffer_size = pixels.len();
    let mut input_data = pool.acquire(buffer_size);
    let mut red = extract_channel(pixels, 0);
    let mut green = extract_channel(pixels, 1);
    let mut blue = extract_channel(pixels, 2);
    input_data.append(&mut red);
    input_data.append(&mut green);
    input_data.append(&mut blue);
    proof {
        assert(input_data@ =~= planar_of(pixels@));
        assert(channel_plane(pixels@, 0).len() == pixels@.len() / 3);
        assert(input_data@.len() == pixels@.len());
    }
    let stored = copy_bytes(&input_data);
    pool.release(buffer_size, stored);
    Ok(input_data)
}

} // verus!
