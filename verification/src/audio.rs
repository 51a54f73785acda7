//! Audio tracks: where their samples stand in an image, and how they are handed on.
use vstd::prelude::*;
use crate::bytes;
use crate::bytes::{read_u16_le, write_le};
use crate::codec::{Mp3Call, Mp3Stream};
use crate::numbers;
use crate::numbers::decimal_string;
use crate::source;
use crate::source::{read_wide, ByteSource, Reads};
use crate::text;
use crate::text::{chars_of, ends_with, is_text, join3};
use crate::track::{InfoView, TrackInfo};

verus! {

/// The bytes that are read at once.
pub const AUDIO_CHUNK: u64 = 0x100000;

/// Where the sheet or header of an image lists its tracks.
#[derive(Clone, Copy, PartialEq, Eq, Structural)]
pub enum TrackList {
    Gdi,
    Mds,
    Cue,
}

/// Where the tracks of an image are listed, by its name in lower case.
pub open spec fn list_of(lower: Seq<char>) -> TrackList {
    if text::ends(lower, ".gdi"@) {
        TrackList::Gdi
    } else if text::ends(lower, ".mds"@) {
        TrackList::Mds
    } else {
        TrackList::Cue
    }
}

/// Where the tracks of an image are listed, by its name in lower case.
pub fn track_list(lower: &str) -> (r: TrackList)
    ensures
        r == list_of(lower@),
{
    let c: Vec<char> = chars_of(lower);
    if ends_with(c.as_slice(), ".gdi") {
        TrackList::Gdi
    } else if ends_with(c.as_slice(), ".mds") {
        TrackList::Mds
    } else {
        TrackList::Cue
    }
}

/// The formats that audio is saved in.
#[derive(Clone, Copy, PartialEq, Eq, Structural)]
pub enum AudioFormat {
    Flac,
    Mp3,
    Wav,
}

/// The format of a name; any other name stands for WAV.
pub open spec fn format_named(name: Seq<char>) -> AudioFormat {
    if name == "flac"@ {
        AudioFormat::Flac
    } else if name == "mp3"@ {
        AudioFormat::Mp3
    } else {
        AudioFormat::Wav
    }
}

/// The format of a name.
pub fn audio_format(name: &str) -> (r: AudioFormat)
    ensures
        r == format_named(name@),
{
    let c: Vec<char> = chars_of(name);
    if is_text(c.as_slice(), "flac") {
        AudioFormat::Flac
    } else if is_text(c.as_slice(), "mp3") {
        AudioFormat::Mp3
    } else {
        AudioFormat::Wav
    }
}

/// The first audio track of a number from `k` on.
pub open spec fn audio_from(tracks: Seq<TrackInfo>, number: u32, k: int) -> Option<int>
    decreases tracks.len() - k,
{
    if k < 0 || k >= tracks.len() {
        None
    } else if tracks[k].number == number && !tracks[k].is_data {
        Some(k)
    } else {
        audio_from(tracks, number, k + 1)
    }
}

/// Finds the audio track of a number.
pub fn find_audio_track(tracks: &Vec<TrackInfo>, number: u32) -> (r: Result<usize, String>)
    ensures
        match r {
            Ok(k) => k < tracks@.len() && audio_from(tracks@, number, 0) == Some(k as int),
            Err(e) => audio_from(tracks@, number, 0) is None && e@ == "Audio track "@
                + numbers::decimal(number as int) + " not found"@,
        },
{
    let mut k: usize = 0;
    while k < tracks.len()
        invariant
            k <= tracks@.len(),
            audio_from(tracks@, number, k as int) == audio_from(tracks@, number, 0),
        decreases tracks@.len() - k,
    {
        if tracks[k].number == number && !tracks[k].is_data {
            return Ok(k);
        }
        k += 1;
    }
    let n: String = decimal_string(number as u64);
    Err(join3("Audio track ", n.as_str(), " not found"))
}

// ── Samples ─────────────────────────────────────────────────────────────────

/// The position of a track's samples in its file.
pub open spec fn samples_start(t: InfoView) -> int {
    t.start_lba * 2352
}

/// The bytes of a track's samples: its sectors without the pregap.
pub open spec fn samples_len(t: InfoView) -> int {
    if t.num_sectors <= t.start_lba {
        0
    } else {
        (t.num_sectors - t.start_lba) * 2352
    }
}

/// The bytes that are read next of `left` that remain.
pub open spec fn next_len(left: int) -> int {
    if left < AUDIO_CHUNK {
        left
    } else {
        AUDIO_CHUNK as int
    }
}

/// The `left` bytes at `pos`, read piece by piece.
pub open spec fn pieces_from(reads: Reads, pos: int, left: int) -> Result<Seq<u8>, Seq<char>>
    decreases left,
{
    if left <= 0 {
        Ok(seq![])
    } else {
        let n = next_len(left);
        match source::labelled(source::reach(reads, pos, n), "Read error: "@) {
            Err(e) => Err(e),
            Ok(b) => source::after(b, pieces_from(reads, pos + n, left - n)),
        }
    }
}

/// A run of samples that is read piece by piece.
pub struct AudioReader<S> {
    pub source: S,
    pub pos: u128,
    pub remaining: u128,
}

impl<S: ByteSource> AudioReader<S> {
    /// Whether positions do not run over.
    pub open spec fn wf(&self) -> bool {
        self.pos + self.remaining <= 0xffff_ffff_ffff_ffff_ffff
    }

    /// The samples of a track.
    pub fn open(source: S, track: &TrackInfo) -> (r: AudioReader<S>)
        ensures
            r.wf(),
            r.source.reads() == source.reads(),
            r.pos == samples_start(track@),
            r.remaining == samples_len(track@),
    {
        let pos: u128 = track.start_lba as u128 * 2352;
        let remaining: u128 = if track.num_sectors <= track.start_lba {
            0
        } else {
            (track.num_sectors - track.start_lba) as u128 * 2352
        };
        AudioReader { source, pos, remaining }
    }

    /// The samples that are in a file of `file_len` bytes.
    pub fn clip(&mut self, file_len: u64)
        requires
            old(self).wf(),
        ensures
            final(self).wf(),
            final(self).source == old(self).source,
            final(self).pos == old(self).pos,
            final(self).remaining == clipped(
                old(self).pos as int,
                old(self).remaining as int,
                file_len as int,
            ),
    {
        if self.pos >= file_len as u128 {
            self.remaining = 0;
        } else if self.remaining > file_len as u128 - self.pos {
            self.remaining = file_len as u128 - self.pos;
        }
    }

    /// Reads the next piece; none is left at the end.
    pub fn next_piece(&mut self) -> (r: Result<Option<Vec<u8>>, String>)
        requires
            old(self).wf(),
        ensures
            final(self).wf(),
            final(self).source.reads() == old(self).source.reads(),
            ({
                let n = next_len(old(self).remaining as int);
                let read = source::labelled(
                    source::reach(old(self).source.reads(), old(self).pos as int, n),
                    "Read error: "@,
                );
                match r {
                    Ok(None) => old(self).remaining == 0 && final(self).pos == old(self).pos
                        && final(self).remaining == 0,
                    Ok(Some(b)) => old(self).remaining > 0 && read == Ok::<Seq<u8>, Seq<char>>(b@)
                        && b@.len() == n && final(self).pos == old(self).pos + n
                        && final(self).remaining == old(self).remaining - n,
                    Err(e) => old(self).remaining > 0 && read == Err::<Seq<u8>, Seq<char>>(e@),
                }
            }),
    {
        if self.remaining == 0 {
            return Ok(None);
        }
        let n: u64 = if self.remaining < AUDIO_CHUNK as u128 {
            self.remaining as u64
        } else {
            AUDIO_CHUNK
        };
        match read_wide(&mut self.source, self.pos, n, "Read error: ") {
            Err(e) => Err(e),
            Ok(b) => {
                self.pos = self.pos + n as u128;
                self.remaining = self.remaining - n as u128;
                Ok(Some(b))
            },
        }
    }

    /// Reads all that is left, behind some bytes.
    #[verifier::loop_isolation(false)]
    fn read_rest(&mut self, head: Vec<u8>) -> (r: Result<Vec<u8>, String>)
        requires
            old(self).wf(),
        ensures
            source::outcome(r) == source::after(
                head@,
                pieces_from(
                    old(self).source.reads(),
                    old(self).pos as int,
                    old(self).remaining as int,
                ),
            ),
    {
        let ghost reads = self.source.reads();
        let ghost goal = source::after(
            head@,
            pieces_from(reads, self.pos as int, self.remaining as int),
        );
        let mut out: Vec<u8> = head;
        let mut more: bool = true;
        while more
            invariant
                self.wf(),
                self.source.reads() == reads,
                source::after(
                    out@,
                    pieces_from(reads, self.pos as int, self.remaining as int),
                ) == goal,
                !more ==> self.remaining == 0,
            decreases self.remaining + if more {
                1int
            } else {
                0
            },
        {
            let ghost before = out@;
            let ghost was = (self.pos as int, self.remaining as int);
            match self.next_piece() {
                Err(e) => {
                    return Err(e);
                },
                Ok(None) => {
                    more = false;
                },
                Ok(Some(b)) => {
                    let mut piece: Vec<u8> = b;
                    let ghost p = piece@;
                    out.append(&mut piece);
                    proof {
                        if let Ok(t) = pieces_from(reads, self.pos as int, self.remaining as int) {
                            assert(before + (p + t) =~= (before + p) + t);
                        }
                    }
                },
            }
        }
        assert(out@ + seq![] =~= out@);
        Ok(out)
    }
}

/// What is left of `n` bytes at `pos` in a file of `len` bytes.
pub open spec fn clipped(pos: int, n: int, len: int) -> int {
    if pos >= len {
        0
    } else if n > len - pos {
        len - pos
    } else {
        n
    }
}

// ── WAV ─────────────────────────────────────────────────────────────────────

/// The letters of a text as bytes.
pub open spec fn letters(t: Seq<char>) -> Seq<u8> {
    t.map_values(|c: char| c as u8)
}

/// The header of a WAV file of `data_size` bytes of 16-bit stereo samples at 44100 Hz.
pub open spec fn wav_head(data_size: u32) -> Seq<u8> {
    letters("RIFF"@) + bytes::le_bytes((data_size + 36) % 0x1_0000_0000, 4) + letters("WAVE"@)
        + letters("fmt "@) + bytes::le_bytes(16, 4) + bytes::le_bytes(1, 2) + bytes::le_bytes(2, 2)
        + bytes::le_bytes(44100, 4) + bytes::le_bytes(176400, 4) + bytes::le_bytes(4, 2)
        + bytes::le_bytes(16, 2) + letters("data"@) + bytes::le_bytes(data_size as int, 4)
}

/// Appends a number.
fn put_number(out: &mut Vec<u8>, v: u64, n: usize)
    requires
        n <= 8,
    ensures
        final(out)@ == old(out)@ + bytes::le_bytes(v as int, n as nat),
{
    let mut b: Vec<u8> = write_le(v, n);
    out.append(&mut b);
}

/// Appends four letters.
fn put_letters(out: &mut Vec<u8>, a: u8, b: u8, c: u8, d: u8)
    ensures
        final(out)@ == old(out)@ + seq![a, b, c, d],
{
    let ghost before = out@;
    out.push(a);
    out.push(b);
    out.push(c);
    out.push(d);
    assert(out@ =~= before + seq![a, b, c, d]);
}

/// Makes the header of a WAV file.
pub fn wav_header(data_size: u32) -> (r: Vec<u8>)
    ensures
        r@ == wav_head(data_size),
{
    let mut out: Vec<u8> = Vec::new();
    proof {
        reveal_strlit("RIFF");
        reveal_strlit("WAVE");
        reveal_strlit("fmt ");
        reveal_strlit("data");
        assert(letters("RIFF"@) =~= seq![82u8, 73, 70, 70]);
        assert(letters("WAVE"@) =~= seq![87u8, 65, 86, 69]);
        assert(letters("fmt "@) =~= seq![102u8, 109, 116, 32]);
        assert(letters("data"@) =~= seq![100u8, 97, 116, 97]);
    }
    put_letters(&mut out, 82, 73, 70, 70);
    assert(out@ =~= letters("RIFF"@));
    let size: u32 = data_size.wrapping_add(36);
    put_number(&mut out, size as u64, 4);
    put_letters(&mut out, 87, 65, 86, 69);
    put_letters(&mut out, 102, 109, 116, 32);
    put_number(&mut out, 16, 4);
    put_number(&mut out, 1, 2);
    put_number(&mut out, 2, 2);
    put_number(&mut out, 44100, 4);
    put_number(&mut out, 176400, 4);
    put_number(&mut out, 4, 2);
    put_number(&mut out, 16, 2);
    put_letters(&mut out, 100, 97, 116, 97);
    put_number(&mut out, data_size as u64, 4);
    out
}

/// The size that a WAV file's header tells, in 32 bits.
pub open spec fn told_size(n: int) -> u32 {
    (n % 0x1_0000_0000) as u32
}

/// The WAV file of a track in a file of `file_len` bytes: its header tells the length
/// of the track, also where the file ends before it.
pub open spec fn wav_file(reads: Reads, file_len: int, t: InfoView) -> Result<Seq<u8>, Seq<char>> {
    source::after(
        wav_head(told_size(samples_len(t))),
        pieces_from(
            reads,
            samples_start(t),
            clipped(samples_start(t), samples_len(t), file_len),
        ),
    )
}

/// Makes the WAV file of a track.
pub fn save_audio_as_wav<S: ByteSource>(source: S, file_len: u64, track: &TrackInfo) -> (r: Result<
    Vec<u8>,
    String,
>)
    ensures
        source::outcome(r) == wav_file(source.reads(), file_len as int, track@),
{
    let mut reader: AudioReader<S> = AudioReader::open(source, track);
    let size: u32 = (reader.remaining % 0x1_0000_0000) as u32;
    let head: Vec<u8> = wav_header(size);
    reader.clip(file_len);
    reader.read_rest(head)
}

// ── Encoders ────────────────────────────────────────────────────────────────

/// A 16-bit sample as a signed number.
pub open spec fn signed(v: int) -> int {
    if v < 0x8000 {
        v
    } else {
        v - 0x10000
    }
}

/// The samples in a piece, channel by channel in turn.
pub open spec fn samples_of(raw: Seq<u8>) -> Seq<int> {
    Seq::new(raw.len() / 2, |i: int| signed(bytes::le16_at(raw, 2 * i)))
}

/// The samples in a piece, channel by channel in turn.
#[verifier::loop_isolation(false)]
pub fn interleaved_samples(raw: &[u8]) -> (r: Vec<i32>)
    ensures
        r@.map_values(|s: i32| s as int) == samples_of(raw@),
{
    let len: usize = raw.len();
    let n: usize = len / 2;
    let mut out: Vec<i32> = Vec::new();
    while out.len() < n
        invariant
            out@.len() <= n,
            forall|j: int| 0 <= j < out@.len() ==> out@[j] == signed(bytes::le16_at(raw@, 2 * j)),
        decreases n - out@.len(),
    {
        let i: usize = out.len();
        let v: u16 = read_u16_le(raw, 2 * i);
        let s: i32 = if v < 0x8000 {
            v as i32
        } else {
            v as i32 - 0x10000
        };
        out.push(s);
    }
    assert(out@.map_values(|s: i32| s as int) =~= samples_of(raw@));
    out
}

/// One channel of the frames in a piece: `at` is where its sample stands in a frame.
pub open spec fn channel_of(raw: Seq<u8>, at: int) -> Seq<u16> {
    Seq::new(raw.len() / 4, |i: int| bytes::le16_at(raw, 4 * i + at) as u16)
}

/// The two channels of the frames in a piece.
#[verifier::loop_isolation(false)]
pub fn stereo_channels(raw: &[u8]) -> (r: (Vec<u16>, Vec<u16>))
    ensures
        r.0@ == channel_of(raw@, 0),
        r.1@ == channel_of(raw@, 2),
{
    let len: usize = raw.len();
    let n: usize = len / 4;
    let mut left: Vec<u16> = Vec::new();
    let mut right: Vec<u16> = Vec::new();
    while left.len() < n
        invariant
            left@.len() <= n,
            left@.len() == right@.len(),
            forall|j: int| 0 <= j < left@.len() ==> left@[j] == bytes::le16_at(raw@, 4 * j),
            forall|j: int| 0 <= j < right@.len() ==> right@[j] == bytes::le16_at(raw@, 4 * j + 2),
        decreases n - left@.len(),
    {
        let i: usize = left.len();
        left.push(read_u16_le(raw, 4 * i));
        right.push(read_u16_le(raw, 4 * i + 2));
    }
    assert(left@ =~= channel_of(raw@, 0));
    assert(right@ =~= channel_of(raw@, 2));
    (left, right)
}

/// Whether `calls` are those that encode the samples from `pos` on: both channels of
/// each piece in turn, until a piece cannot be read or the encoder fails, and a last
/// one for the bytes that it kept back.
pub open spec fn calls_fit(reads: Reads, pos: int, left: int, calls: Seq<Mp3Call>) -> bool
    decreases left,
{
    if left <= 0 {
        calls.len() == 1 && calls[0] is Flush
    } else {
        let n = next_len(left);
        match source::labelled(source::reach(reads, pos, n), "Read error: "@) {
            Err(_) => calls.len() == 0,
            Ok(b) => calls.len() > 0 && match calls[0] {
                Mp3Call::Encode { left: l, right: r, reply } => l == channel_of(b, 0) && r
                    == channel_of(b, 2) && match reply {
                    Err(_) => calls.len() == 1,
                    Ok(_) => calls_fit(reads, pos + n, left - n, calls.drop_first()),
                },
                _ => false,
            },
        }
    }
}

/// The file that the replies to `calls` make up, or the first error, be it of a read
/// or of the encoder.
pub open spec fn mp3_file(reads: Reads, pos: int, left: int, calls: Seq<Mp3Call>) -> Result<
    Seq<u8>,
    Seq<char>,
>
    decreases left,
{
    if left <= 0 {
        calls[0]->Flush_reply
    } else {
        let n = next_len(left);
        match source::labelled(source::reach(reads, pos, n), "Read error: "@) {
            Err(e) => Err(e),
            Ok(_) => match calls[0]->Encode_reply {
                Err(e) => Err(e),
                Ok(head) => source::after(
                    head,
                    mp3_file(reads, pos + n, left - n, calls.drop_first()),
                ),
            },
        }
    }
}

/// Adds what an encoder replied to the bytes before, or gives its error.
pub fn add_reply(out: Vec<u8>, reply: Result<Vec<u8>, String>) -> (r: Result<Vec<u8>, String>)
    ensures
        source::outcome(r) == source::after(out@, source::outcome(reply)),
{
    match reply {
        Err(e) => Err(e),
        Ok(b) => {
            let mut all: Vec<u8> = out;
            let mut more: Vec<u8> = b;
            all.append(&mut more);
            Ok(all)
        },
    }
}

/// Hands both channels of a piece to the encoder, and gives its reply.
fn feed(stream: &mut Mp3Stream, raw: &[u8]) -> (r: Result<Vec<u8>, String>)
    requires
        raw@.len() <= AUDIO_CHUNK,
    ensures
        final(stream).calls() == old(stream).calls().push(
            (Mp3Call::Encode {
                left: channel_of(raw@, 0),
                right: channel_of(raw@, 2),
                reply: source::outcome(r),
            }),
        ),
{
    let (left, right): (Vec<u16>, Vec<u16>) = stereo_channels(raw);
    stream.encode(left.as_slice(), right.as_slice())
}

/// Whether encoding goes on at `pos` with `left` bytes once `made` was called and
/// `out` came back.
spec fn goes_on(
    reads: Reads,
    start: int,
    len: int,
    made: Seq<Mp3Call>,
    out: Seq<u8>,
    pos: int,
    left: int,
) -> bool {
    forall|s: Seq<Mp3Call>|
        #![trigger made + s]
        calls_fit(reads, start, len, made + s) == calls_fit(reads, pos, left, s) && (calls_fit(
            reads,
            pos,
            left,
            s,
        ) ==> mp3_file(reads, start, len, made + s) == source::after(
            out,
            mp3_file(reads, pos, left, s),
        ))
}

/// Nothing was called at the start.
proof fn lemma_goes_on_at_the_start(reads: Reads, start: int, len: int)
    ensures
        goes_on(reads, start, len, seq![], seq![], start, len),
{
    assert forall|s: Seq<Mp3Call>|
        #![trigger Seq::<Mp3Call>::empty() + s]
        Seq::<Mp3Call>::empty() + s == s && source::after(
            seq![],
            mp3_file(reads, start, len, s),
        ) == mp3_file(reads, start, len, s) by {
        assert(Seq::<Mp3Call>::empty() + s =~= s);
        match mp3_file(reads, start, len, s) {
            Ok(b) => {
                assert(Seq::<u8>::empty() + b =~= b);
            },
            Err(_) => {},
        }
    }
}

/// One more piece, and the reply to it.
proof fn lemma_goes_on(
    reads: Reads,
    start: int,
    len: int,
    made: Seq<Mp3Call>,
    out: Seq<u8>,
    pos: int,
    left: int,
    raw: Seq<u8>,
    head: Seq<u8>,
)
    requires
        left > 0,
        goes_on(reads, start, len, made, out, pos, left),
        source::labelled(source::reach(reads, pos, next_len(left)), "Read error: "@) == Ok::<
            Seq<u8>,
            Seq<char>,
        >(raw),
    ensures
        goes_on(
            reads,
            start,
            len,
            made.push(
                Mp3Call::Encode {
                    left: channel_of(raw, 0),
                    right: channel_of(raw, 2),
                    reply: Ok(head),
                },
            ),
            out + head,
            pos + next_len(left),
            left - next_len(left),
        ),
{
    let c = Mp3Call::Encode {
        left: channel_of(raw, 0),
        right: channel_of(raw, 2),
        reply: Ok(head),
    };
    let n = next_len(left);
    assert forall|s: Seq<Mp3Call>|
        #![trigger made.push(c) + s]
        calls_fit(reads, start, len, made.push(c) + s) == calls_fit(reads, pos + n, left - n, s)
            && (calls_fit(reads, pos + n, left - n, s) ==> mp3_file(
            reads,
            start,
            len,
            made.push(c) + s,
        ) == source::after(out + head, mp3_file(reads, pos + n, left - n, s))) by {
        let t = seq![c] + s;
        assert(made.push(c) + s =~= made + t);
        assert(t.drop_first() =~= s);
        match mp3_file(reads, pos + n, left - n, s) {
            Ok(b) => {
                assert(out + (head + b) =~= out + head + b);
            },
            Err(_) => {},
        }
    }
}

/// Makes the MP3 file of a track: what the encoder replied to its samples, piece by
/// piece, or the first error. What the encoder replies is left open.
#[verifier::loop_isolation(false)]
pub fn save_audio_as_mp3<S: ByteSource>(
    source: S,
    track: &TrackInfo,
    stream: &mut Mp3Stream,
) -> (r: Result<Vec<u8>, String>)
    ensures
        old(stream).calls().is_prefix_of(final(stream).calls()),
        ({
            let made = final(stream).calls().skip(old(stream).calls().len() as int);
            let start = samples_start(track@);
            let len = samples_len(track@);
            &&& calls_fit(source.reads(), start, len, made)
            &&& source::outcome(r) == mp3_file(source.reads(), start, len, made)
        }),
{
    let ghost reads = source.reads();
    let ghost before = stream.calls();
    let ghost start = samples_start(track@);
    let ghost len = samples_len(track@);
    let ghost mut made = Seq::<Mp3Call>::empty();
    let mut reader: AudioReader<S> = AudioReader::open(source, track);
    let mut out: Vec<u8> = Vec::new();
    let mut more: bool = true;
    proof {
        lemma_goes_on_at_the_start(reads, start, len);
    }
    while more
        invariant
            reader.wf(),
            reader.source.reads() == reads,
            stream.calls() == before + made,
            goes_on(
                reads,
                start,
                len,
                made,
                out@,
                reader.pos as int,
                reader.remaining as int,
            ),
            !more ==> reader.remaining == 0,
        decreases reader.remaining + if more {
            1int
        } else {
            0
        },
    {
        let ghost pos = reader.pos as int;
        let ghost left = reader.remaining as int;
        match reader.next_piece() {
            Err(e) => {
                assert(made + seq![] =~= made);
                assert(stream.calls().skip(before.len() as int) =~= made);
                return Err(e);
            },
            Ok(None) => {
                more = false;
            },
            Ok(Some(raw)) => {
                let ghost sofar = out@;
                let reply: Result<Vec<u8>, String> = feed(stream, raw.as_slice());
                let ghost c = Mp3Call::Encode {
                    left: channel_of(raw@, 0),
                    right: channel_of(raw@, 2),
                    reply: source::outcome(reply),
                };
                assert(before + made.push(c) =~= (before + made).push(c));
                assert(stream.calls().skip(before.len() as int) =~= made + seq![c]);
                match add_reply(out, reply) {
                    Ok(all) => {
                        proof {
                            let head = source::outcome(reply)->Ok_0;
                            lemma_goes_on(reads, start, len, made, sofar, pos, left, raw@, head);
                            made = made.push(c);
                        }
                        out = all;
                    },
                    Err(e) => {
                        return Err(e);
                    },
                }
            },
        }
    }
    let reply: Result<Vec<u8>, String> = stream.flush();
    let ghost c = Mp3Call::Flush { reply: source::outcome(reply) };
    assert(stream.calls().skip(before.len() as int) =~= made + seq![c]);
    add_reply(out, reply)
}

// ── Laws ────────────────────────────────────────────────────────────────────

/// Samples that an image in memory holds are handed on as they stand there, however
/// they are read.
pub proof fn pieces_are_the_image(image: Seq<u8>, pos: int, left: int)
    requires
        0 <= pos,
        0 <= left,
        pos + left <= image.len() <= u64::MAX,
    ensures
        pieces_from(source::reads_of(image), pos, left) == Ok::<Seq<u8>, Seq<char>>(
            image.subrange(pos, pos + left),
        ),
    decreases left,
{
    if left == 0 {
        assert(image.subrange(pos, pos) =~= seq![]);
    } else {
        let n = next_len(left);
        pieces_are_the_image(image, pos + n, left - n);
        assert(image.subrange(pos, pos + n) + image.subrange(pos + n, pos + left)
            =~= image.subrange(pos, pos + left));
    }
}

/// One channel of all the samples that an encoder was handed: `at` is where its sample
/// stands in a frame.
pub open spec fn handed(calls: Seq<Mp3Call>, at: int) -> Seq<u16>
    decreases calls.len(),
{
    if calls.len() == 0 {
        seq![]
    } else {
        let head = match calls[0] {
            Mp3Call::Encode { left, right, .. } => if at == 0 {
                left
            } else {
                right
            },
            _ => seq![],
        };
        head + handed(calls.drop_first(), at)
    }
}

/// The frames of two pieces are those of the first and then those of the second, where
/// the first holds whole frames.
proof fn lemma_channel_of_two(a: Seq<u8>, b: Seq<u8>, at: int)
    requires
        a.len() % 4 == 0,
        at == 0 || at == 2,
    ensures
        channel_of(a + b, at) == channel_of(a, at) + channel_of(b, at),
{
    let whole = channel_of(a + b, at);
    let parts = channel_of(a, at) + channel_of(b, at);
    assert(whole.len() == parts.len());
    assert forall|i: int| 0 <= i < whole.len() implies whole[i] == parts[i] by {
        let k = a.len() / 4;
        if i < k {
            assert((a + b)[4 * i + at] == a[4 * i + at]);
            assert((a + b)[4 * i + at + 1] == a[4 * i + at + 1]);
        } else {
            assert((a + b)[4 * i + at] == b[4 * (i - k) + at]);
            assert((a + b)[4 * i + at + 1] == b[4 * (i - k) + at + 1]);
        }
    }
    assert(whole =~= parts);
}

/// Where an MP3 file is made, every sample could be read, and of whole frames the
/// encoder was handed both channels of all of them.
pub proof fn an_mp3_file_is_made_of_every_sample(
    reads: Reads,
    pos: int,
    left: int,
    calls: Seq<Mp3Call>,
)
    requires
        calls_fit(reads, pos, left, calls),
        mp3_file(reads, pos, left, calls) is Ok,
    ensures
        pieces_from(reads, pos, left) is Ok,
        source::exact(reads) && left % 4 == 0 ==> handed(calls, 0) == channel_of(
            pieces_from(reads, pos, left)->Ok_0,
            0,
        ) && handed(calls, 2) == channel_of(pieces_from(reads, pos, left)->Ok_0, 2),
    decreases left,
{
    let rest = calls.drop_first();
    if left <= 0 {
        assert(handed(rest, 0) =~= seq![]);
        assert(handed(rest, 2) =~= seq![]);
        assert(channel_of(seq![], 0) =~= seq![]);
        assert(channel_of(seq![], 2) =~= seq![]);
    } else {
        let n = next_len(left);
        let b = source::labelled(source::reach(reads, pos, n), "Read error: "@)->Ok_0;
        an_mp3_file_is_made_of_every_sample(reads, pos + n, left - n, rest);
        let more = pieces_from(reads, pos + n, left - n)->Ok_0;
        if source::exact(reads) && left % 4 == 0 {
            lemma_channel_of_two(b, more, 0);
            lemma_channel_of_two(b, more, 2);
        }
    }
}

/// The header of a WAV file holds the size of its data, and what tells 16-bit stereo samples
/// at 44100 Hz, each in its place.
pub proof fn a_wav_header_tells_its_samples(size: u32)
    ensures
        ({
            let h = wav_head(size);
            &&& h.len() == 44
            &&& bytes::spells(h, 0, "RIFF"@)
            &&& bytes::has_at(h, 4, bytes::le_bytes((size + 36) % 0x1_0000_0000, 4))
            &&& bytes::spells(h, 8, "WAVE"@)
            &&& bytes::spells(h, 12, "fmt "@)
            &&& bytes::has_at(h, 16, bytes::le_bytes(16, 4))
            &&& bytes::has_at(h, 20, bytes::le_bytes(1, 2))
            &&& bytes::has_at(h, 22, bytes::le_bytes(2, 2))
            &&& bytes::has_at(h, 24, bytes::le_bytes(44100, 4))
            &&& bytes::has_at(h, 28, bytes::le_bytes(4int * 44100, 4))
            &&& bytes::has_at(h, 32, bytes::le_bytes(4, 2))
            &&& bytes::has_at(h, 34, bytes::le_bytes(16, 2))
            &&& bytes::spells(h, 36, "data"@)
            &&& bytes::has_at(h, 40, bytes::le_bytes(size as int, 4))
        }),
{
    reveal_strlit("RIFF");
    reveal_strlit("WAVE");
    reveal_strlit("fmt ");
    reveal_strlit("data");
    bytes::lemma_notation_len((size + 36) % 0x1_0000_0000, 4);
    bytes::lemma_notation_len(16, 4);
    bytes::lemma_notation_len(1, 2);
    bytes::lemma_notation_len(2, 2);
    bytes::lemma_notation_len(44100, 4);
    bytes::lemma_notation_len(176400, 4);
    bytes::lemma_notation_len(4, 2);
    bytes::lemma_notation_len(16, 2);
    bytes::lemma_notation_len(size as int, 4);
    let a = letters("RIFF"@);
    let b = bytes::le_bytes((size + 36) % 0x1_0000_0000, 4);
    let c = letters("WAVE"@);
    let d = letters("fmt "@);
    let e = bytes::le_bytes(16, 4);
    let f = bytes::le_bytes(1, 2);
    let g = bytes::le_bytes(2, 2);
    let h = bytes::le_bytes(44100, 4);
    let i = bytes::le_bytes(176400, 4);
    let j = bytes::le_bytes(4, 2);
    let k = bytes::le_bytes(16, 2);
    let l = letters("data"@);
    let m = bytes::le_bytes(size as int, 4);
    let all = wav_head(size);
    assert(all.len() == 44);
    assert(all.subrange(0, 4) =~= a);
    assert(all.subrange(4, 8) =~= b);
    assert(all.subrange(8, 12) =~= c);
    assert(all.subrange(12, 16) =~= d);
    assert(all.subrange(16, 20) =~= e);
    assert(all.subrange(20, 22) =~= f);
    assert(all.subrange(22, 24) =~= g);
    assert(all.subrange(24, 28) =~= h);
    assert(all.subrange(28, 32) =~= i);
    assert(all.subrange(32, 34) =~= j);
    assert(all.subrange(34, 36) =~= k);
    assert(all.subrange(36, 40) =~= l);
    assert(all.subrange(40, 44) =~= m);
    lemma_part_stands(all, 4, b);
    lemma_part_stands(all, 16, e);
    lemma_part_stands(all, 20, f);
    lemma_part_stands(all, 22, g);
    lemma_part_stands(all, 24, h);
    lemma_part_stands(all, 28, i);
    lemma_part_stands(all, 32, j);
    lemma_part_stands(all, 34, k);
    lemma_part_stands(all, 40, m);
    lemma_letters_stand(all, 0, "RIFF"@);
    lemma_letters_stand(all, 8, "WAVE"@);
    lemma_letters_stand(all, 12, "fmt "@);
    lemma_letters_stand(all, 36, "data"@);
}

/// Bytes stand where a stretch is made of them.
proof fn lemma_part_stands(s: Seq<u8>, at: int, part: Seq<u8>)
    requires
        0 <= at,
        at + part.len() <= s.len(),
        s.subrange(at, at + part.len()) == part,
    ensures
        bytes::has_at(s, at, part),
{
    assert forall|k: int| 0 <= k < part.len() implies #[trigger] s[at + k] == part[k] by {
        assert(s.subrange(at, at + part.len())[k] == s[at + k]);
    }
}

/// A text is spelt where a stretch is made of its letters.
proof fn lemma_letters_stand(s: Seq<u8>, at: int, t: Seq<char>)
    requires
        0 <= at,
        at + t.len() <= s.len(),
        s.subrange(at, at + t.len()) == letters(t),
        forall|k: int| 0 <= k < t.len() ==> (#[trigger] t[k] as u8) as u32 == t[k] as u32,
    ensures
        bytes::spells(s, at, t),
{
    assert forall|k: int| 0 <= k < t.len() implies s[at + k] as u32 == #[trigger] t[k] as u32 by {
        assert(s.subrange(at, at + t.len())[k] == s[at + k]);
        assert(letters(t)[k] == t[k] as u8);
    }
}

/// A track is saved as its header and the bytes of its sectors of 2352 bytes, from its first
/// up to its end.
pub proof fn a_wav_file_is_its_track(image: Seq<u8>, t: InfoView)
    requires
        image.len() <= u64::MAX,
        t.start_lba <= t.num_sectors,
        2352 * t.num_sectors <= image.len(),
        2352 * (t.num_sectors - t.start_lba) <= u32::MAX,
    ensures
        wav_file(source::reads_of(image), image.len() as int, t) == Ok::<Seq<u8>, Seq<char>>(
            wav_head((2352 * (t.num_sectors - t.start_lba)) as u32) + image.subrange(
                2352 * t.start_lba as int,
                2352 * t.num_sectors as int,
            ),
        ),
{
    pieces_are_the_image(image, 2352 * t.start_lba as int, 2352 * (t.num_sectors - t.start_lba));
}

/// A sample comes out as the signed number that was written.
pub proof fn samples_hold_what_was_written(raw: Seq<u8>, i: int, v: int)
    requires
        0 <= i,
        2 * i + 2 <= raw.len(),
        -0x8000 <= v < 0x8000,
        v >= 0 ==> bytes::has_at(raw, 2 * i, bytes::le_bytes(v, 2)),
        v < 0 ==> bytes::has_at(raw, 2 * i, bytes::le_bytes(v + 0x1_0000, 2)),
    ensures
        samples_of(raw)[i] == v,
        samples_of(raw).len() == raw.len() / 2,
{
    if v >= 0 {
        bytes::fields_hold_what_was_written(raw, 2 * i, v);
    } else {
        bytes::fields_hold_what_was_written(raw, 2 * i, v + 0x1_0000);
    }
}

/// A frame of four bytes is a sample for the left channel and one for the right.
pub proof fn frames_hold_both_channels(raw: Seq<u8>, i: int, l: u16, r: u16)
    requires
        0 <= i,
        4 * i + 4 <= raw.len(),
        bytes::has_at(raw, 4 * i, bytes::le_bytes(l as int, 2)),
        bytes::has_at(raw, 4 * i + 2, bytes::le_bytes(r as int, 2)),
    ensures
        channel_of(raw, 0)[i] == l,
        channel_of(raw, 2)[i] == r,
        channel_of(raw, 0).len() == raw.len() / 4,
        channel_of(raw, 2).len() == raw.len() / 4,
{
    bytes::fields_hold_what_was_written(raw, 4 * i, l as int);
    bytes::fields_hold_what_was_written(raw, 4 * i + 2, r as int);
}

} // verus!
