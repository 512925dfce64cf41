//! The encoder and the decoder.

use crate::bits::{
    be_value, bit_value, bits_to_bytes, bytes_to_bits, lemma_value_bound, lsbs, read_lsb,
    unpacked_bits, write_lsb,
};
use crate::codec::{
    embedded, encoded, exceeds_capacity, extracted, extracted_text, frame_bits, header_bits,
};
use crate::error::StegoError;
use crate::header::{
    leading_zeros, lemma_leading_zeros_concat, lemma_recovered_length, length_bit, recover_length,
};
use crate::raster::{raster_new, Raster};
use crate::text::{str_trim, string_from_utf8_lossy};
use vstd::arithmetic::power2::lemma2_to64;
use vstd::prelude::*;
use vstd::string::StringSliceAdditionalSpecFns;

verus! {

/// The number of pixels at the start of an image whose lowest bits hold the
/// message length.
pub const HEADER_PIXELS: u32 = 4;

/// The number of header pixels, as a number of the specifications.
pub open spec fn header_pixels() -> nat {
    HEADER_PIXELS as nat
}

/// The codec: hides a message in the lowest bits of an image's samples and
/// reads it back.
pub struct LSBstego {
    header_pixel_length: u32,
}

impl LSBstego {
    /// The number of header pixels that this codec reads and writes.
    pub closed spec fn header_length(&self) -> nat {
        self.header_pixel_length as nat
    }

    /// Every codec uses the header size of the format.
    #[verifier::type_invariant]
    spec fn uses_format_header(&self) -> bool {
        self.header_pixel_length == HEADER_PIXELS
    }

    /// A codec with the format's header of four pixels.
    pub fn new() -> (codec: Self)
        ensures
            codec.header_length() == header_pixels(),
    {
        Self { header_pixel_length: HEADER_PIXELS }
    }

    /// Tells whether a message of `no_of_bytes` bytes is too large for an
    /// image of the given width and height: `true` where it does not fit.
    pub fn check_capacity(&self, no_of_bytes: usize, dimensions: (u32, u32)) -> (exceeded: bool)
        ensures
            exceeded == exceeds_capacity(
                no_of_bytes as nat,
                dimensions.0 as nat * dimensions.1 as nat,
                header_pixels(),
            ),
    {
        proof {
            use_type_invariant(self);
        }
        let header_bits: u32 = self.header_pixel_length * 3;
        let limit: u64 = 1u64 << header_bits;
        proof {
            lemma2_to64();
            assert(1u64 << header_bits == 4096) by (bit_vector)
                requires
                    header_bits == 12,
            ;
        }
        if no_of_bytes as u64 >= limit {
            return true;
        }
        let (width, height) = dimensions;
        assert(width * height <= u64::MAX) by (nonlinear_arith)
            requires
                width <= u32::MAX,
                height <= u32::MAX,
        ;
        let pixels: u64 = (width as u64) * (height as u64);
        if pixels < self.header_pixel_length as u64 {
            return true;
        }
        let slots: u128 = 3 * ((pixels - self.header_pixel_length as u64) as u128);
        8 * (no_of_bytes as u128) > slots
    }

    /// Hides `message` in a copy of `cover_img`: the lowest bits of the
    /// first samples of the result spell the frame of the message, and the
    /// result is the carrier in everything else, in a buffer that holds its
    /// pixels and nothing more. Fails, with `CapacityExceeded`, exactly
    /// where the message does not fit.
    pub fn encode_bytes(&self, cover_img: &Raster, message: &[u8]) -> (made: Result<
        Raster,
        StegoError,
    >)
        ensures
            match made {
                Ok(stego_img) => {
                    &&& !exceeds_capacity(
                        message@.len(),
                        cover_img@.pixel_count(),
                        header_pixels(),
                    )
                    &&& stego_img@ == encoded(cover_img@, message@, header_pixels())
                    &&& stego_img@.samples() == stego_img@.buffer
                },
                Err(e) => e == StegoError::CapacityExceeded && exceeds_capacity(
                    message@.len(),
                    cover_img@.pixel_count(),
                    header_pixels(),
                ),
            },
    {
        proof {
            use_type_invariant(self);
        }
        let (width, height) = cover_img.dimensions();
        let length_of_bytes: usize = message.len();
        if self.check_capacity(length_of_bytes, (width, height)) {
            return Err(StegoError::CapacityExceeded);
        }
        proof {
            lemma2_to64();
        }
        let msg_bits = bytes_to_bits(message);
        let length_of_bits: usize = msg_bits.len();
        assert(width * height <= u64::MAX) by (nonlinear_arith)
            requires
                width <= u32::MAX,
                height <= u32::MAX,
        ;
        let pixels: u64 = (width as u64) * (height as u64);
        assert(3 * width * height == 3 * (width * height)) by (nonlinear_arith);
        let mut stego_img = raster_new(width, height);
        let ghost samples = cover_img@.samples();
        let ghost frame = frame_bits(message@, header_pixels());
        let ghost target = embedded(samples, frame);
        let mut msg_bits_index: usize = 0;
        let mut index: u64 = 0;
        while index < pixels
            invariant
                self.header_pixel_length == HEADER_PIXELS,
                index <= pixels,
                pixels == cover_img@.pixel_count(),
                cover_img@.well_formed(),
                samples == cover_img@.samples(),
                frame == frame_bits(message@, header_pixels()),
                target == embedded(samples, frame),
                length_of_bytes == message@.len(),
                length_of_bytes < 4096,
                msg_bits@ == unpacked_bits(message@),
                length_of_bits == 8 * length_of_bytes,
                3 * header_pixels() + length_of_bits <= 3 * pixels,
                stego_img@.width == cover_img@.width,
                stego_img@.height == cover_img@.height,
                stego_img@.buffer.len() == 3 * pixels,
                forall|i: int| 0 <= i < 3 * index ==> stego_img@.buffer[i] == target[i],
                msg_bits_index == if index <= header_pixels() {
                    0int
                } else if 3 * (index - header_pixels()) <= length_of_bits {
                    3 * (index - header_pixels())
                } else {
                    length_of_bits as int
                },
            decreases pixels - index,
        {
            let current_pixel = cover_img.pixel(index);
            let mut red: u8 = current_pixel[0];
            let mut green: u8 = current_pixel[1];
            let mut blue: u8 = current_pixel[2];
            if index < self.header_pixel_length as u64 {
                // The first pixels hold the message length.
                let first_bit: u32 = (index as u32) * 3;
                red = write_lsb(red, length_bit(length_of_bytes, first_bit));
                green = write_lsb(green, length_bit(length_of_bytes, first_bit + 1));
                blue = write_lsb(blue, length_bit(length_of_bytes, first_bit + 2));
            } else {
                // The others hold the message, one bit per channel.
                if msg_bits_index < length_of_bits {
                    red = write_lsb(red, msg_bits[msg_bits_index]);
                    msg_bits_index += 1;
                }
                if msg_bits_index < length_of_bits {
                    green = write_lsb(green, msg_bits[msg_bits_index]);
                    msg_bits_index += 1;
                }
                if msg_bits_index < length_of_bits {
                    blue = write_lsb(blue, msg_bits[msg_bits_index]);
                    msg_bits_index += 1;
                }
            }
            stego_img.set_pixel(index, [red, green, blue]);
            index += 1;
        }
        Ok(stego_img)
    }

    /// Hides the UTF-8 bytes of `secret_msg` in a copy of `cover_img`.
    /// Fails, with `CapacityExceeded`, exactly where those bytes do not fit.
    pub fn encode_text(&self, cover_img: &Raster, secret_msg: &str) -> (made: Result<
        Raster,
        StegoError,
    >)
        ensures
            match made {
                Ok(stego_img) => {
                    &&& !exceeds_capacity(
                        secret_msg.spec_bytes().len(),
                        cover_img@.pixel_count(),
                        header_pixels(),
                    )
                    &&& stego_img@ == encoded(
                        cover_img@,
                        secret_msg.spec_bytes(),
                        header_pixels(),
                    )
                    &&& stego_img@.samples() == stego_img@.buffer
                },
                Err(e) => e == StegoError::CapacityExceeded && exceeds_capacity(
                    secret_msg.spec_bytes().len(),
                    cover_img@.pixel_count(),
                    header_pixels(),
                ),
            },
    {
        self.encode_bytes(cover_img, secret_msg.as_bytes())
    }

    /// Reads the bytes that an image holds: the length that its header
    /// spells, then that many bytes from the samples after the header, or as
    /// many whole bytes as the image has room for. Fails, with
    /// `ImageTooSmall`, exactly where the image has fewer pixels than the
    /// header takes. The header of every other image spells a length, so
    /// `MalformedHeader` does not come from here.
    pub fn decode_bytes(&self, stego_img: &Raster) -> (decoded: Result<Vec<u8>, StegoError>)
        ensures
            match decoded {
                Ok(bytes) => stego_img@.pixel_count() >= header_pixels() && bytes@
                    == extracted(stego_img@.samples(), header_pixels()),
                Err(e) => e == StegoError::ImageTooSmall && stego_img@.pixel_count()
                    < header_pixels(),
            },
    {
        proof {
            use_type_invariant(self);
        }
        let (width, height) = stego_img.dimensions();
        assert(width * height <= u64::MAX) by (nonlinear_arith)
            requires
                width <= u32::MAX,
                height <= u32::MAX,
        ;
        let pixels: u64 = (width as u64) * (height as u64);
        if pixels < self.header_pixel_length as u64 {
            return Err(StegoError::ImageTooSmall);
        }
        let ghost samples = stego_img@.samples();
        let ghost header = header_bits(samples, header_pixels());
        let mut message_length: u32 = 0;
        let mut are_lsb_zeroes_considered: bool = false;
        let mut no_of_zero_bits: u8 = 0;
        let mut index: u64 = 0;
        while index < self.header_pixel_length as u64
            invariant
                self.header_pixel_length == HEADER_PIXELS,
                index <= header_pixels() <= pixels,
                pixels == stego_img@.pixel_count(),
                samples == stego_img@.samples(),
                samples.len() == 3 * pixels,
                header == header_bits(samples, header_pixels()),
                message_length == be_value(header.take(3 * index)),
                no_of_zero_bits == leading_zeros(header.take(3 * index)),
                are_lsb_zeroes_considered == (leading_zeros(header.take(3 * index)) < 3 * index),
            decreases header_pixels() - index,
        {
            let pixel = stego_img.pixel(index);
            let ghost seen = header.take(3 * index);
            let ghost here = lsbs(pixel@);
            proof {
                lemma2_to64();
                lemma_value_bound(seen.push(here[0]));
                lemma_value_bound(seen.push(here[0]).push(here[1]));
                assert(seen.push(here[0]).drop_last() =~= seen);
                assert(seen.push(here[0]).push(here[1]).drop_last() =~= seen.push(here[0]));
                assert(header.take(3 * index + 3) =~= seen + here);
                assert(seen + here =~= seen.push(here[0]).push(here[1]).push(here[2]));
                assert(seen.push(here[0]).push(here[1]).push(here[2]).drop_last() =~= seen.push(
                    here[0],
                ).push(here[1]));
                lemma_leading_zeros_concat(seen, here);
            }
            message_length = shift_in(message_length, read_lsb(pixel[0]));
            message_length = shift_in(message_length, read_lsb(pixel[1]));
            message_length = shift_in(message_length, read_lsb(pixel[2]));
            if !are_lsb_zeroes_considered {
                are_lsb_zeroes_considered = Self::consider_lsb_0_bits(&pixel, &mut no_of_zero_bits);
            }
            index += 1;
        }
        assert(header.take(3 * index) =~= header);
        let zero_bits: u8 = if are_lsb_zeroes_considered {
            no_of_zero_bits
        } else {
            0
        };
        proof {
            lemma_recovered_length(header);
            lemma_value_bound(header);
            lemma2_to64();
        }
        // Twelve header bits spell a length below 4096, so this never fails.
        let message_length: u32 = match recover_length(message_length, zero_bits) {
            Ok(length) => length,
            Err(e) => {
                return Err(e);
            },
        };
        let wanted_bits: u64 = (message_length as u64) * 8;
        let mut message_bits: Vec<bool> = Vec::new();
        while index < pixels && (message_bits.len() as u64) < wanted_bits
            invariant
                self.header_pixel_length == HEADER_PIXELS,
                header_pixels() <= index <= pixels,
                pixels == stego_img@.pixel_count(),
                samples == stego_img@.samples(),
                samples.len() == 3 * pixels,
                wanted_bits <= 8 * 4095,
                message_bits@.len() == if 3 * (index - header_pixels()) <= wanted_bits {
                    3 * (index - header_pixels())
                } else {
                    wanted_bits as int
                },
                message_bits@ == lsbs(
                    samples.subrange(
                        3 * header_pixels() as int,
                        3 * header_pixels() as int + message_bits@.len(),
                    ),
                ),
            decreases pixels - index,
        {
            let pixel = stego_img.pixel(index);
            // Extract message bits from the lowest bit of each channel, and
            // stop within the pixel once the message is complete.
            message_bits.push(read_lsb(pixel[0]));
            if (message_bits.len() as u64) < wanted_bits {
                message_bits.push(read_lsb(pixel[1]));
                if (message_bits.len() as u64) < wanted_bits {
                    message_bits.push(read_lsb(pixel[2]));
                }
            }
            index += 1;
        }
        Ok(bits_to_bytes(message_bits.as_slice()))
    }

    /// Counts the clear lowest bits of a pixel's channels, red first, up to the
    /// first set one, adds the count to `no_of_zero_bits`, and tells whether a
    /// set bit was found.
    pub fn consider_lsb_0_bits(pixel: &[u8; 3], no_of_zero_bits: &mut u8) -> (found: bool)
        requires
            *old(no_of_zero_bits) <= u8::MAX - 3,
        ensures
            found == (leading_zeros(lsbs(pixel@)) < 3),
            *final(no_of_zero_bits) == *old(no_of_zero_bits) + leading_zeros(lsbs(pixel@)),
    {
        proof {
            reveal_with_fuel(leading_zeros, 4);
        }
        if read_lsb(pixel[0]) {
            return true;
        }
        *no_of_zero_bits += 1;
        if read_lsb(pixel[1]) {
            return true;
        }
        *no_of_zero_bits += 1;
        if read_lsb(pixel[2]) {
            return true;
        }
        *no_of_zero_bits += 1;
        false
    }

    /// Reads the text that an image holds: its bytes as UTF-8, with U+FFFD
    /// for what is not, without the white space at the ends. Fails, with
    /// `ImageTooSmall`, exactly where the image has fewer pixels than the
    /// header takes.
    pub fn decode_text(&self, stego_img: &Raster) -> (decoded: Result<String, StegoError>)
        ensures
            match decoded {
                Ok(secret_msg) => stego_img@.pixel_count() >= header_pixels() && secret_msg@
                    == extracted_text(stego_img@.samples(), header_pixels()),
                Err(e) => e == StegoError::ImageTooSmall && stego_img@.pixel_count()
                    < header_pixels(),
            },
    {
        match self.decode_bytes(stego_img) {
            Ok(bytes) => {
                let text = string_from_utf8_lossy(bytes.as_slice());
                Ok(str_trim(text.as_str()).to_owned())
            },
            Err(e) => Err(e),
        }
    }
}

/// Appends a bit at the low end of a number.
fn shift_in(acc: u32, bit: bool) -> (out: u32)
    requires
        acc < 0x8000_0000,
    ensures
        out == 2 * acc + bit_value(bit),
{
    let low: u32 = if bit {
        1
    } else {
        0
    };
    assert((acc << 1) | low == 2 * acc + low) by (bit_vector)
        requires
            acc < 0x8000_0000,
            low <= 1,
    ;
    (acc << 1) | low
}

} // verus!
