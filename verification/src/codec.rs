//! What the codec computes, stated over sample sequences, and the laws that
//! hold of it.
//!
//! A frame is the message's byte length in `3 * header_pixels` bits, least
//! significant first, followed by the bits of the message, each byte least
//! significant bit first. Bit `i` of the frame replaces the lowest bit of
//! sample `i` of the image; samples run in row-major pixel order, red, green
//! and blue within a pixel.

use crate::bits::{
    le_bits, le_value, lemma_le_value_of_le_bits, lemma_pack_unpack, lsb, lsbs, packed_bytes,
    unpacked_bits, with_lsb,
};
use crate::raster::RasterView;
use crate::text::{lossy_text, trimmed};
use vstd::arithmetic::power2::pow2;
use vstd::prelude::*;
use vstd::utf8::{encode_utf8, encode_utf8_decode_utf8, encode_utf8_valid_utf8};

verus! {

/// The message does not fit: its length needs more than the header's bits,
/// or its bits outnumber the samples that follow the header. An image with
/// fewer pixels than the header takes holds no message at all.
pub open spec fn exceeds_capacity(len: nat, pixels: nat, header_pixels: nat) -> bool {
    len >= pow2(3 * header_pixels) || 8 * len > 3 * (pixels - header_pixels)
}

/// The bits to embed for a message: its length, then its bytes.
pub open spec fn frame_bits(message: Seq<u8>, header_pixels: nat) -> Seq<bool> {
    le_bits(message.len(), 3 * header_pixels) + unpacked_bits(message)
}

/// The samples with the lowest bit of sample `i` replaced by bit `i`, for
/// every bit there is; all else is kept.
pub open spec fn embedded(samples: Seq<u8>, bits: Seq<bool>) -> Seq<u8> {
    Seq::new(
        samples.len(),
        |i: int|
            if i < bits.len() {
                with_lsb(samples[i], bits[i])
            } else {
                samples[i]
            },
    )
}

/// The image that encoding makes of a carrier and a message: an image of
/// the carrier's size whose buffer is the carrier's samples with the frame of
/// the message embedded.
pub open spec fn encoded(cover: RasterView, message: Seq<u8>, header_pixels: nat) -> RasterView {
    RasterView {
        width: cover.width,
        height: cover.height,
        buffer: embedded(cover.samples(), frame_bits(message, header_pixels)),
    }
}

/// The header bits of an image: the lowest bits of its first
/// `3 * header_pixels` samples.
pub open spec fn header_bits(samples: Seq<u8>, header_pixels: nat) -> Seq<bool> {
    lsbs(samples.take(3 * header_pixels as int))
}

/// The message length that the header of an image spells.
pub open spec fn stored_length(samples: Seq<u8>, header_pixels: nat) -> nat {
    le_value(header_bits(samples, header_pixels))
}

/// The payload bits of an image: the lowest bits of the samples after the
/// header, eight for each byte of the stored length, or as many as the image
/// has if it has fewer.
pub open spec fn payload_bits(samples: Seq<u8>, header_pixels: nat) -> Seq<bool> {
    let start = 3 * header_pixels;
    let wanted = 8 * stored_length(samples, header_pixels);
    let available = samples.len() - start;
    let count = if wanted <= available {
        wanted as int
    } else {
        available
    };
    lsbs(samples.subrange(start as int, start + count))
}

/// The bytes that an image holds.
pub open spec fn extracted(samples: Seq<u8>, header_pixels: nat) -> Seq<u8> {
    packed_bytes(payload_bits(samples, header_pixels))
}

/// The text that an image holds: its bytes read as UTF-8, with replacement
/// characters where they are not, and trimmed.
pub open spec fn extracted_text(samples: Seq<u8>, header_pixels: nat) -> Seq<char> {
    trimmed(lossy_text(extracted(samples, header_pixels)))
}

/// Embedding changes nothing but lowest bits, and those only of the samples
/// that a bit of the frame falls on: the length stays, every sample keeps its
/// seven upper bits, and the samples beyond the frame stay as they are.
pub proof fn lemma_embedding_is_confined(samples: Seq<u8>, bits: Seq<bool>)
    ensures
        embedded(samples, bits).len() == samples.len(),
        forall|i: int|
            0 <= i < samples.len() ==> #[trigger] embedded(samples, bits)[i] / 2 == samples[i] / 2,
        forall|i: int|
            bits.len() <= i < samples.len() ==> #[trigger] embedded(samples, bits)[i] == samples[i],
{
}

/// Of a frame, the pixels from `header_pixels + ceil(8 * len / 3)` on are
/// untouched: no pixel beyond the header and the fewest payload pixels that
/// hold the message is changed.
pub proof fn lemma_pixels_beyond_message_untouched(
    samples: Seq<u8>,
    message: Seq<u8>,
    header_pixels: nat,
    pixel: int,
)
    requires
        header_pixels + (8 * message.len() + 2) / 3 <= pixel,
        3 * pixel + 3 <= samples.len(),
    ensures
        embedded(samples, frame_bits(message, header_pixels)).subrange(3 * pixel, 3 * pixel + 3)
            == samples.subrange(3 * pixel, 3 * pixel + 3),
{
    assert(embedded(samples, frame_bits(message, header_pixels)).subrange(3 * pixel, 3 * pixel + 3)
        =~= samples.subrange(3 * pixel, 3 * pixel + 3));
}

/// Embedding the same bits twice is embedding them once.
pub proof fn lemma_embedding_is_idempotent(samples: Seq<u8>, bits: Seq<bool>)
    ensures
        embedded(embedded(samples, bits), bits) == embedded(samples, bits),
{
}

/// Only lowest bits are read: images whose samples agree in their lowest
/// bits hold the same bytes.
pub proof fn lemma_extraction_reads_lowest_bits(
    first: Seq<u8>,
    second: Seq<u8>,
    header_pixels: nat,
)
    requires
        3 * header_pixels <= first.len(),
        first.len() == second.len(),
        forall|i: int| 0 <= i < first.len() ==> lsb(first[i]) == lsb(second[i]),
    ensures
        stored_length(first, header_pixels) == stored_length(second, header_pixels),
        extracted(first, header_pixels) == extracted(second, header_pixels),
{
    assert(header_bits(first, header_pixels) =~= header_bits(second, header_pixels));
    assert(payload_bits(first, header_pixels) =~= payload_bits(second, header_pixels));
}

/// A message that fits is what the image holds after embedding: the header
/// of the new samples spells the message's length, and the payload that
/// follows spells its bytes.
pub proof fn lemma_round_trip(samples: Seq<u8>, message: Seq<u8>, header_pixels: nat)
    requires
        samples.len() % 3 == 0,
        !exceeds_capacity(message.len(), samples.len() / 3, header_pixels),
    ensures
        stored_length(embedded(samples, frame_bits(message, header_pixels)), header_pixels)
            == message.len(),
        extracted(embedded(samples, frame_bits(message, header_pixels)), header_pixels) == message,
{
    let frame = frame_bits(message, header_pixels);
    let out = embedded(samples, frame);
    let start = 3 * header_pixels;
    assert(header_bits(out, header_pixels) =~= le_bits(message.len(), start));
    lemma_le_value_of_le_bits(message.len(), start);
    assert(payload_bits(out, header_pixels) =~= unpacked_bits(message)) by {
        assert forall|i: int| 0 <= i < 8 * message.len() implies lsb(out[start + i])
            == unpacked_bits(message)[i] by {
            assert(frame[start + i] == unpacked_bits(message)[i]);
        }
    }
    lemma_pack_unpack(message);
}

/// A text that fits comes back trimmed: what the image holds after its UTF-8
/// bytes were embedded is the text without the white space at its ends,
/// whatever characters it is made of.
pub proof fn lemma_round_trip_text(samples: Seq<u8>, text: Seq<char>, header_pixels: nat)
    requires
        samples.len() % 3 == 0,
        !exceeds_capacity(encode_utf8(text).len(), samples.len() / 3, header_pixels),
    ensures
        extracted(embedded(samples, frame_bits(encode_utf8(text), header_pixels)), header_pixels)
            == encode_utf8(text),
        extracted_text(
            embedded(samples, frame_bits(encode_utf8(text), header_pixels)),
            header_pixels,
        ) == trimmed(text),
{
    lemma_round_trip(samples, encode_utf8(text), header_pixels);
    encode_utf8_valid_utf8(text);
    encode_utf8_decode_utf8(text);
}

/// What the decoder reads from what the encoder made is the message: for a
/// carrier whose buffer holds its pixels and a message that fits, the
/// encoded image has room for the header, its buffer holds exactly its
/// pixels, and the bytes it holds are the message.
pub proof fn lemma_decode_after_encode(cover: RasterView, message: Seq<u8>, header_pixels: nat)
    requires
        cover.well_formed(),
        !exceeds_capacity(message.len(), cover.pixel_count(), header_pixels),
    ensures
        encoded(cover, message, header_pixels).pixel_count() >= header_pixels,
        encoded(cover, message, header_pixels).samples() == encoded(
            cover,
            message,
            header_pixels,
        ).buffer,
        extracted(encoded(cover, message, header_pixels).samples(), header_pixels) == message,
{
    lemma_round_trip(cover.samples(), message, header_pixels);
}

/// The same for text: what the decoder reads from an image in which the
/// encoder hid the UTF-8 bytes of a text is that text, trimmed.
pub proof fn lemma_decode_text_after_encode(
    cover: RasterView,
    text: Seq<char>,
    header_pixels: nat,
)
    requires
        cover.well_formed(),
        !exceeds_capacity(encode_utf8(text).len(), cover.pixel_count(), header_pixels),
    ensures
        extracted_text(encoded(cover, encode_utf8(text), header_pixels).samples(), header_pixels)
            == trimmed(text),
{
    lemma_decode_after_encode(cover, encode_utf8(text), header_pixels);
    lemma_round_trip_text(cover.samples(), text, header_pixels);
}

/// The capacity is exact: a message whose bits fill every sample after the
/// header fits, if the header can spell its length; one that needs a single
/// sample more does not, nor does one whose length the header cannot spell.
pub proof fn lemma_capacity_boundary(len: nat, pixels: nat, header_pixels: nat)
    ensures
        len < pow2(3 * header_pixels) && 8 * len == 3 * (pixels - header_pixels)
            ==> !exceeds_capacity(len, pixels, header_pixels),
        8 * len >= 3 * (pixels - header_pixels) + 1 ==> exceeds_capacity(
            len,
            pixels,
            header_pixels,
        ),
        len >= pow2(3 * header_pixels) ==> exceeds_capacity(len, pixels, header_pixels),
{
}

} // verus!
