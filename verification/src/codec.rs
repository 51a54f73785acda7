//! Ciphers, compression methods, digests and encoders of other crates.
use vstd::prelude::*;
use crate::source;
use crate::xz_footer;
use std::io::Read;
use aes::cipher::block_padding::NoPadding;
use aes::cipher::{BlockDecryptMut, BlockEncryptMut, KeyIvInit};

verus! {

/// AES-128 in CBC mode, backwards: what `data` decrypts to under `key` and `iv`.
pub uninterp spec fn cbc_decrypted(key: Seq<u8>, iv: Seq<u8>, data: Seq<u8>) -> Seq<u8>;

/// AES-128 in CBC mode: what `data` encrypts to under `key` and `iv`.
pub uninterp spec fn cbc_encrypted(key: Seq<u8>, iv: Seq<u8>, data: Seq<u8>) -> Seq<u8>;

/// What `zstd::bulk::decompress` gives for a block and a limit on its length.
pub uninterp spec fn zstd_block(data: Seq<u8>, capacity: nat) -> Result<Seq<u8>, Seq<char>>;

/// What `zstd::bulk::decompress_to_buffer` writes into a buffer of `size` bytes.
pub uninterp spec fn zstd_filled(data: Seq<u8>, size: nat) -> Result<Seq<u8>, Seq<char>>;

/// What `zstd::stream::decode_all` gives for a stream of frames.
pub uninterp spec fn zstd_stream(data: Seq<u8>) -> Result<Seq<u8>, Seq<char>>;

/// What `bzip2_rs::DecoderReader` gives when read to its end.
pub uninterp spec fn bzip2_stream(data: Seq<u8>) -> Result<Seq<u8>, Seq<char>>;

/// What `lzma_rs::lzma_decompress` gives for a stream.
pub uninterp spec fn lzma_stream(data: Seq<u8>) -> Result<Seq<u8>, Seq<char>>;

/// What `lzma_rs::lzma2_decompress` gives for a stream.
pub uninterp spec fn lzma2_stream(data: Seq<u8>) -> Result<Seq<u8>, Seq<char>>;

/// What `lzma_rs::xz_decompress` gives for a stream.
pub uninterp spec fn xz_stream(data: Seq<u8>) -> Result<Seq<u8>, Seq<char>>;

/// What `flate2::read::GzDecoder` gives when read to its end.
pub uninterp spec fn gzip_stream(data: Seq<u8>) -> Result<Seq<u8>, Seq<char>>;

/// What `flate2::read::DeflateDecoder` gives when read to its end.
pub uninterp spec fn deflate_stream(data: Seq<u8>) -> Result<Seq<u8>, Seq<char>>;

/// The first `n` bytes that `flate2::read::DeflateDecoder` gives.
pub uninterp spec fn deflate_prefix(data: Seq<u8>, n: nat) -> Result<Seq<u8>, Seq<char>>;

/// The first `n` bytes that `flate2::read::ZlibDecoder` gives.
pub uninterp spec fn zlib_prefix(data: Seq<u8>, n: nat) -> Result<Seq<u8>, Seq<char>>;

/// The digest that `blake3::hash` gives.
pub uninterp spec fn blake3_digest(data: Seq<u8>) -> Seq<u8>;

/// The text that `encoding_rs::UTF_16LE.decode` gives.
pub uninterp spec fn utf16le_text(data: Seq<u8>) -> Seq<char>;

/// The text that `String::from_utf16_lossy` gives.
pub uninterp spec fn utf16_lossy(units: Seq<u16>) -> Seq<char>;

/// `cbc::Decryptor<aes::Aes128>` without padding. Decrypting whole blocks keeps
/// their number, and encrypting the result gives the argument back.
#[verifier::external_body]
pub(crate) fn aes_cbc_decrypt(key: &[u8], iv: &[u8], data: &[u8]) -> (r: Vec<u8>)
    requires
        key@.len() == 16,
        iv@.len() == 16,
        data@.len() % 16 == 0,
    ensures
        r@ == cbc_decrypted(key@, iv@, data@),
        r@.len() == data@.len(),
        cbc_encrypted(key@, iv@, r@) == data@,
{
    let mut out = data.to_vec();
    let dec = cbc::Decryptor::<aes::Aes128>::new_from_slices(key, iv).unwrap();
    dec.decrypt_padded_mut::<NoPadding>(&mut out).unwrap();
    out
}

/// `cbc::Encryptor<aes::Aes128>` without padding. Encrypting whole blocks keeps
/// their number, and decrypting the result gives the argument back.
#[verifier::external_body]
pub(crate) fn aes_cbc_encrypt(key: &[u8], iv: &[u8], data: &[u8]) -> (r: Vec<u8>)
    requires
        key@.len() == 16,
        iv@.len() == 16,
        data@.len() % 16 == 0,
    ensures
        r@ == cbc_encrypted(key@, iv@, data@),
        r@.len() == data@.len(),
        cbc_decrypted(key@, iv@, r@) == data@,
{
    let mut out = data.to_vec();
    let enc = cbc::Encryptor::<aes::Aes128>::new_from_slices(key, iv).unwrap();
    enc.encrypt_padded_mut::<NoPadding>(&mut out, data.len()).unwrap();
    out
}

/// `zstd::bulk::decompress`: a block that decodes to at most `capacity` bytes,
/// or an error.
#[verifier::external_body]
pub(crate) fn zstd_decompress(data: &[u8], capacity: usize) -> (r: Result<Vec<u8>, String>)
    requires
        capacity <= isize::MAX,
    ensures
        source::outcome(r) == zstd_block(data@, capacity as nat),
        r matches Ok(b) ==> b@.len() <= capacity,
{
    match zstd::bulk::decompress(data, capacity) {
        Ok(out) => Ok(out),
        Err(e) => Err(e.to_string()),
    }
}

/// `zstd::bulk::decompress_to_buffer` with a buffer of `size` bytes: what is
/// written into it, or an error.
#[verifier::external_body]
pub(crate) fn zstd_fill(data: &[u8], size: usize) -> (r: Result<Vec<u8>, String>)
    requires
        size <= isize::MAX,
    ensures
        source::outcome(r) == zstd_filled(data@, size as nat),
        r matches Ok(b) ==> b@.len() <= size,
{
    let mut out = vec![0u8; size];
    match zstd::bulk::decompress_to_buffer(data, &mut out[..]) {
        Ok(n) => {
            out.truncate(n);
            Ok(out)
        },
        Err(e) => Err(e.to_string()),
    }
}

/// `zstd::stream::decode_all`.
#[verifier::external_body]
pub(crate) fn zstd_decode_all(data: &[u8]) -> (r: Result<Vec<u8>, String>)
    ensures
        source::outcome(r) == zstd_stream(data@),
{
    match zstd::stream::decode_all(data) {
        Ok(out) => Ok(out),
        Err(e) => Err(e.to_string()),
    }
}

/// `bzip2_rs::DecoderReader`, read to its end.
#[verifier::external_body]
pub(crate) fn bzip2_decode(data: &[u8]) -> (r: Result<Vec<u8>, String>)
    ensures
        source::outcome(r) == bzip2_stream(data@),
{
    let mut out = Vec::new();
    match bzip2_rs::DecoderReader::new(data).read_to_end(&mut out) {
        Ok(_) => Ok(out),
        Err(e) => Err(e.to_string()),
    }
}

/// `lzma_rs::lzma_decompress` of a whole stream.
#[verifier::external_body]
pub(crate) fn lzma_decode(data: &[u8]) -> (r: Result<Vec<u8>, String>)
    ensures
        source::outcome(r) == lzma_stream(data@),
{
    let mut input = data;
    let mut out = Vec::new();
    match lzma_rs::lzma_decompress(&mut input, &mut out) {
        Ok(_) => Ok(out),
        Err(e) => Err(e.to_string()),
    }
}

/// `lzma_rs::lzma2_decompress` of a whole stream.
#[verifier::external_body]
pub(crate) fn lzma2_decode(data: &[u8]) -> (r: Result<Vec<u8>, String>)
    ensures
        source::outcome(r) == lzma2_stream(data@),
{
    let mut input = data;
    let mut out = Vec::new();
    match lzma_rs::lzma2_decompress(&mut input, &mut out) {
        Ok(_) => Ok(out),
        Err(e) => Err(e.to_string()),
    }
}

/// `lzma_rs::xz_decompress` of a whole stream. Behind the blocks and the index, the
/// decoder adds one to the size in the footer, in 32 bits: a stream in which it comes to
/// a size of all ones is left out. Up to that size the decoder depends on the bytes
/// before it alone, so that it comes there in the same way where another size stands;
/// one that comes to zero it refuses with a text of its own.
#[verifier::external_body]
pub(crate) fn xz_decode(data: &[u8]) -> (r: Result<Vec<u8>, String>)
    requires
        data@.len() <= u32::MAX,
        xz_footer::overflow_from(data@, 0) is None,
    ensures
        source::outcome(r) == xz_stream(data@),
{
    let mut input = data;
    let mut out = Vec::new();
    match lzma_rs::xz_decompress(&mut input, &mut out) {
        Ok(_) => Ok(out),
        Err(e) => Err(e.to_string()),
    }
}

/// `flate2::read::GzDecoder`, read to its end.
#[verifier::external_body]
pub(crate) fn gzip_decode(data: &[u8]) -> (r: Result<Vec<u8>, String>)
    ensures
        source::outcome(r) == gzip_stream(data@),
{
    let mut out = Vec::new();
    match flate2::read::GzDecoder::new(data).read_to_end(&mut out) {
        Ok(_) => Ok(out),
        Err(e) => Err(e.to_string()),
    }
}

/// `flate2::read::DeflateDecoder`, read to its end.
#[verifier::external_body]
pub(crate) fn deflate_decode(data: &[u8]) -> (r: Result<Vec<u8>, String>)
    ensures
        source::outcome(r) == deflate_stream(data@),
{
    let mut out = Vec::new();
    match flate2::read::DeflateDecoder::new(data).read_to_end(&mut out) {
        Ok(_) => Ok(out),
        Err(e) => Err(e.to_string()),
    }
}

/// `flate2::read::DeflateDecoder`, from which exactly `n` bytes are read.
#[verifier::external_body]
pub(crate) fn deflate_decode_exact(data: &[u8], n: usize) -> (r: Result<Vec<u8>, String>)
    requires
        n <= isize::MAX,
    ensures
        source::outcome(r) == deflate_prefix(data@, n as nat),
        r matches Ok(b) ==> b@.len() == n,
{
    let mut out = vec![0u8; n];
    match flate2::read::DeflateDecoder::new(data).read_exact(&mut out) {
        Ok(_) => Ok(out),
        Err(e) => Err(e.to_string()),
    }
}

/// `flate2::read::ZlibDecoder`, from which exactly `n` bytes are read.
#[verifier::external_body]
pub(crate) fn zlib_decode_exact(data: &[u8], n: usize) -> (r: Result<Vec<u8>, String>)
    requires
        n <= isize::MAX,
    ensures
        source::outcome(r) == zlib_prefix(data@, n as nat),
        r matches Ok(b) ==> b@.len() == n,
{
    let mut out = vec![0u8; n];
    match flate2::read::ZlibDecoder::new(data).read_exact(&mut out) {
        Ok(_) => Ok(out),
        Err(e) => Err(e.to_string()),
    }
}

/// `blake3::hash`: a digest of 32 bytes.
#[verifier::external_body]
pub(crate) fn blake3_hash(data: &[u8]) -> (r: Vec<u8>)
    ensures
        r@ == blake3_digest(data@),
        r@.len() == 32,
{
    blake3::hash(data).as_bytes().to_vec()
}

/// An encoder of MP3 frames.
#[verifier::external_type_specification]
#[verifier::external_body]
pub struct ExMp3Encoder(mp3lame_encoder::Encoder);

/// A call of an MP3 encoder: what it was handed, and what it replied.
#[verifier::ext_equal]
pub enum Mp3Call {
    Build { channels: u8, rate: u32, bitrate: Mp3Bitrate, quality: Mp3Quality },
    Encode { left: Seq<u16>, right: Seq<u16>, reply: Result<Seq<u8>, Seq<char>> },
    Flush { reply: Result<Seq<u8>, Seq<char>> },
}

/// The bit rate of MP3 frames.
#[derive(Clone, Copy, PartialEq, Eq, Structural)]
pub enum Mp3Bitrate {
    Kbps320,
}

/// How much work an MP3 encoder does for the sound of its frames.
#[derive(Clone, Copy, PartialEq, Eq, Structural)]
pub enum Mp3Quality {
    Best,
}

/// An encoder of MP3 files, with the calls that were made of it.
pub struct Mp3Stream {
    enc: mp3lame_encoder::Encoder,
    log: Ghost<Seq<Mp3Call>>,
}

impl Mp3Stream {
    /// The calls that were made of the encoder.
    pub closed spec fn calls(&self) -> Seq<Mp3Call> {
        self.log@
    }

    /// `mp3lame_encoder::Builder`: an encoder for so many channels at such a rate, with
    /// this bit rate and quality; the log starts with them. Whether one can be had is
    /// left unsaid: it rests on the memory that is left.
    #[verifier::external_body]
    fn build(channels: u8, rate: u32, bitrate: Mp3Bitrate, quality: Mp3Quality) -> (r: Result<
        Mp3Stream,
        String,
    >)
        ensures
            r matches Ok(s) ==> s.calls() == seq![
                Mp3Call::Build { channels, rate, bitrate, quality },
            ],
    {
        let enc = mp3lame_encoder::Builder::new().ok_or("MP3 encoder allocation failed")?
            .with_num_channels(channels).map_err(|e| format!("MP3 set channels: {e:?}"))?
            .with_sample_rate(rate).map_err(|e| format!("MP3 set sample rate: {e:?}"))?
            .with_brate(match bitrate { Mp3Bitrate::Kbps320 => mp3lame_encoder::Bitrate::Kbps320 })
            .map_err(|e| format!("MP3 set bitrate: {e:?}"))?
            .with_quality(match quality { Mp3Quality::Best => mp3lame_encoder::Quality::Best })
            .map_err(|e| format!("MP3 set quality: {e:?}"))?
            .build().map_err(|e| format!("MP3 encoder init failed: {e:?}"))?;
        Ok(Mp3Stream { enc, log: Ghost(Seq::empty()) })
    }

    /// An encoder for an audio disc's samples: two channels at 44.1 kHz, 320 kbit/s and
    /// the best quality.
    pub fn open() -> (r: Result<Mp3Stream, String>)
        ensures
            r matches Ok(s) ==> s.calls() == seq![
                Mp3Call::Build {
                    channels: 2,
                    rate: 44_100,
                    bitrate: Mp3Bitrate::Kbps320,
                    quality: Mp3Quality::Best,
                },
            ],
    {
        Mp3Stream::build(2, 44_100, Mp3Bitrate::Kbps320, Mp3Quality::Best)
    }

    /// `mp3lame_encoder::Encoder::encode_to_vec` of two channels: the bytes that are
    /// ready; the log grows by the call. Which bytes they are is left unsaid: the
    /// encoder computes with floating-point numbers, whose rounding rests on the
    /// machine.
    #[verifier::external_body]
    pub(crate) fn encode(&mut self, left: &[u16], right: &[u16]) -> (r: Result<Vec<u8>, String>)
        requires
            left@.len() == right@.len(),
            left@.len() <= 0x4000_0000,
        ensures
            final(self).calls() == old(self).calls().push(
                (Mp3Call::Encode { left: left@, right: right@, reply: source::outcome(r) }),
            ),
    {
        let mut out = Vec::with_capacity(mp3lame_encoder::max_required_buffer_size(left.len()));
        match self.enc.encode_to_vec(mp3lame_encoder::DualPcm { left, right }, &mut out) {
            Ok(_) => Ok(out),
            Err(e) => Err(format!("MP3 encode error: {e:?}")),
        }
    }

    /// `mp3lame_encoder::Encoder::flush_to_vec`: the bytes that were not ready before;
    /// the log grows by the call. Which bytes they are is left unsaid, as of those
    /// before.
    #[verifier::external_body]
    pub(crate) fn flush(&mut self) -> (r: Result<Vec<u8>, String>)
        ensures
            final(self).calls() == old(self).calls().push(
                (Mp3Call::Flush { reply: source::outcome(r) }),
            ),
    {
        let mut out = Vec::with_capacity(7200);
        match self.enc.flush_to_vec::<mp3lame_encoder::FlushNoGap>(&mut out) {
            Ok(_) => Ok(out),
            Err(e) => Err(format!("MP3 flush error: {e:?}")),
        }
    }
}

/// `encoding_rs::UTF_16LE.decode`: the decoded text.
#[verifier::external_body]
pub(crate) fn decode_utf16le(data: &[u8]) -> (r: String)
    ensures
        r@ == utf16le_text(data@),
{
    encoding_rs::UTF_16LE.decode(data).0.into_owned()
}

/// `String::from_utf16_lossy`.
#[verifier::external_body]
pub(crate) fn from_utf16_lossy(units: &[u16]) -> (r: String)
    ensures
        r@ == utf16_lossy(units@),
{
    String::from_utf16_lossy(units)
}

/// The limit on the length of a decoded block: the recorded size, within what
/// memory can address.
pub open spec fn block_limit(size: int) -> nat {
    if size > isize::MAX {
        isize::MAX as nat
    } else if size < 1 {
        1
    } else {
        size as nat
    }
}

/// The limit on the length of a decoded block.
pub fn limit_block(size: u64) -> (r: usize)
    ensures
        r == block_limit(size as int),
        r <= isize::MAX,
{
    if size > isize::MAX as u64 {
        isize::MAX as usize
    } else if size < 1 {
        1
    } else {
        size as usize
    }
}

} // verus!
