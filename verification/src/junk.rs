//! The lagged Fibonacci generator behind the padding of GameCube and Wii discs.
use vstd::prelude::*;
use crate::bytes;
use crate::bytes::read_u32_be;

verus! {

/// The words of state of a generator.
pub const STATE: usize = 521;

/// The first words of a generator's state: those of its seed.
pub open spec fn seed_words(seed: Seq<u8>) -> Seq<u32> {
    Seq::new(
        17,
        |i: int|
            if 4 * i + 4 <= seed.len() {
                bytes::be32_at(seed, 4 * i) as u32
            } else {
                0
            },
    )
}

/// The state from its first words on: each further word mixes three before it.
pub open spec fn grown(s: Seq<u32>) -> Seq<u32>
    decreases STATE - s.len(),
{
    if s.len() < 17 || s.len() >= STATE {
        s
    } else {
        let n = s.len() as int;
        grown(s.push((s[n - 17] << 23u32) ^ (s[n - 16] >> 9u32) ^ s[n - 1]))
    }
}

/// A word of the state after one step.
pub open spec fn stepped_word(b: Seq<u32>, i: int) -> u32
    decreases i,
{
    if i < 32 {
        b[i] ^ b[i + 489]
    } else {
        b[i] ^ stepped_word(b, i - 32)
    }
}

/// The state after one step.
pub open spec fn stepped(b: Seq<u32>) -> Seq<u32> {
    Seq::new(STATE as nat, |i: int| stepped_word(b, i))
}

/// The word number `k` that a generator in the state `b` gives.
pub open spec fn stream_word(b: Seq<u32>, k: int) -> u32
    decreases k,
{
    if k < STATE {
        b[k]
    } else {
        stream_word(stepped(b), k - STATE)
    }
}

/// A byte of a word as the generator gives it: the second byte is taken from
/// eighteen bits up.
pub open spec fn word_byte(w: u32, j: int) -> u8 {
    if j == 0 {
        ((w / 0x100_0000) % 0x100) as u8
    } else if j == 1 {
        ((w / 0x4_0000) % 0x100) as u8
    } else if j == 2 {
        ((w / 0x100) % 0x100) as u8
    } else {
        (w % 0x100) as u8
    }
}

/// The state of a generator fresh from its seed.
pub open spec fn seeded(seed: Seq<u8>) -> Seq<u32> {
    stepped(stepped(stepped(stepped(grown(seed_words(seed))))))
}

/// The first `n` bytes of padding that a seed gives.
pub open spec fn junk(seed: Seq<u8>, n: int) -> Seq<u8> {
    Seq::new(n as nat, |j: int| word_byte(stream_word(seeded(seed), j / 4), j % 4))
}

/// A generator of padding.
pub struct JunkGenerator {
    buffer: Vec<u32>,
    index: usize,
}

proof fn lemma_grown(s: Seq<u32>)
    requires
        17 <= s.len() <= STATE,
    ensures
        grown(s).len() == STATE,
    decreases STATE - s.len(),
{
    if s.len() < STATE {
        let n = s.len() as int;
        lemma_grown(s.push((s[n - 17] << 23u32) ^ (s[n - 16] >> 9u32) ^ s[n - 1]));
    }
}

impl JunkGenerator {
    /// Whether the state is complete.
    pub closed spec fn wf(&self) -> bool {
        self.buffer@.len() == STATE && self.index <= STATE
    }

    /// The word number `k` that this generator will give.
    pub closed spec fn word(&self, k: int) -> u32 {
        stream_word(self.buffer@, self.index + k)
    }

    /// A generator fresh from its seed.
    pub fn new(seed: &[u8]) -> (r: JunkGenerator)
        ensures
            r.wf(),
            forall|k: int| 0 <= k ==> #[trigger] r.word(k) == stream_word(seeded(seed@), k),
    {
        let mut buffer: Vec<u32> = Vec::new();
        let len: usize = seed.len();
        let mut i: usize = 0;
        while i < 17
            invariant
                i <= 17,
                len == seed@.len(),
                buffer@.len() == i,
                forall|j: int| 0 <= j < i ==> buffer@[j] == #[trigger] seed_words(seed@)[j],
            decreases 17 - i,
        {
            let w: u32 = if 4 * i + 4 <= len {
                read_u32_be(seed, 4 * i)
            } else {
                0
            };
            assert(seed_words(seed@)[i as int] == w);
            buffer.push(w);
            i += 1;
        }
        assert(buffer@ =~= seed_words(seed@));
        let ghost full = grown(seed_words(seed@));
        proof {
            lemma_grown(buffer@);
        }
        while buffer.len() < STATE
            invariant
                17 <= buffer@.len() <= STATE,
                grown(buffer@) == full,
            decreases STATE - buffer@.len(),
        {
            let n: usize = buffer.len();
            let w: u32 = (buffer[n - 17] << 23u32) ^ (buffer[n - 16] >> 9u32) ^ buffer[n - 1];
            buffer.push(w);
        }
        let mut g: JunkGenerator = JunkGenerator { buffer, index: STATE };
        g.advance();
        g.advance();
        g.advance();
        g.advance();
        g.index = 0;
        g
    }

    /// Takes the state one step on.
    fn advance(&mut self)
        requires
            old(self).wf(),
        ensures
            final(self).wf(),
            final(self).index == old(self).index,
            final(self).buffer@ == stepped(old(self).buffer@),
    {
        let ghost b = self.buffer@;
        let mut i: usize = 0;
        while i < STATE
            invariant
                b.len() == STATE,
                self.buffer@.len() == STATE,
                self.index == old(self).index,
                i <= STATE,
                forall|j: int| 0 <= j < i ==> self.buffer@[j] == stepped_word(b, j),
                forall|j: int| i <= j < STATE ==> self.buffer@[j] == b[j],
            decreases STATE - i,
        {
            let w: u32 = if i < 32 {
                self.buffer[i] ^ self.buffer[i + 489]
            } else {
                self.buffer[i] ^ self.buffer[i - 32]
            };
            proof {
                assert(self.buffer@[i as int] == b[i as int]);
                if i < 32 {
                    assert(self.buffer@[i + 489] == b[i + 489]);
                } else {
                    assert(self.buffer@[i - 32] == stepped_word(b, i - 32));
                }
                assert(w == stepped_word(b, i as int));
            }
            self.buffer.set(i, w);
            i += 1;
        }
        assert(self.buffer@ =~= stepped(b));
    }

    /// Fills `out` with the bytes that come next. A word that is begun is used up.
    pub fn fill(&mut self, out: &mut Vec<u8>)
        requires
            old(self).wf(),
        ensures
            final(self).wf(),
            final(out)@.len() == old(out)@.len(),
            forall|j: int|
                0 <= j < final(out)@.len() ==> #[trigger] final(out)@[j] == word_byte(
                    old(self).word(j / 4),
                    j % 4,
                ),
            forall|k: int|
                0 <= k ==> #[trigger] final(self).word(k) == old(self).word(
                    k + (old(out)@.len() + 3) / 4,
                ),
    {
        let n: usize = out.len();
        let mut written: usize = 0;
        let ghost start = *self;
        let ghost mut used: int = 0;
        while written < n
            invariant
                self.wf(),
                start == *old(self),
                n == out@.len(),
                n == old(out)@.len(),
                written <= n,
                0 <= used,
                written < n ==> written == 4 * used,
                written == n ==> used == (n + 3) / 4,
                written > n - 4 || written == 4 * used,
                forall|k: int| 0 <= k ==> #[trigger] self.word(k) == start.word(k + used),
                forall|j: int|
                    0 <= j < written ==> #[trigger] out@[j] == word_byte(start.word(j / 4), j % 4),
            decreases n - written,
        {
            let ghost before = *self;
            if self.index >= STATE {
                self.advance();
                self.index = 0;
                assert forall|k: int| 0 <= k implies #[trigger] self.word(k) == before.word(k) by {
                    assert(stream_word(before.buffer@, STATE + k) == stream_word(
                        stepped(before.buffer@),
                        k,
                    ));
                }
            }
            let ghost mid = *self;
            let w: u32 = self.buffer[self.index];
            assert(w == mid.word(0));
            assert(mid.word(0) == before.word(0));
            assert(before.word(0) == start.word(0 + used));
            assert(w == start.word(used));
            self.index += 1;
            assert forall|k: int| 0 <= k implies #[trigger] self.word(k) == start.word(k + used + 1) by {
                assert(self.word(k) == mid.word(k + 1));
                assert(mid.word(k + 1) == before.word(k + 1));
                assert(before.word(k + 1) == start.word(k + 1 + used));
            }
            let pieces: [u8; 4] = [
                ((w / 0x100_0000) % 0x100) as u8,
                ((w / 0x4_0000) % 0x100) as u8,
                ((w / 0x100) % 0x100) as u8,
                (w % 0x100) as u8,
            ];
            let from: usize = written;
            let mut k: usize = 0;
            while k < 4 && written < n
                invariant
                    n == out@.len(),
                    k <= 4,
                    written <= n,
                    written == from + k,
                    from == 4 * used,
                    w == start.word(used),
                    forall|q: int| 0 <= q < 4 ==> #[trigger] pieces@[q] == word_byte(w, q),
                    forall|j: int|
                        0 <= j < written ==> #[trigger] out@[j] == word_byte(start.word(j / 4), j % 4),
                decreases 4 - k,
            {
                assert(pieces@[k as int] == word_byte(w, k as int));
                out.set(written, pieces[k]);
                assert(written as int / 4 == used && written as int % 4 == k);
                written += 1;
                k += 1;
            }
            proof {
                used = used + 1;
            }
        }
    }
}

/// The first `n` bytes of padding that a seed gives.
pub fn make_junk(seed: &[u8], n: u64) -> (r: Vec<u8>)
    ensures
        r@ == junk(seed@, n as int),
{
    let mut out: Vec<u8> = crate::bytes::zeroes(n);
    let mut g: JunkGenerator = JunkGenerator::new(seed);
    g.fill(&mut out);
    assert(out@ =~= junk(seed@, n as int));
    out
}

/// A shorter run of padding is the beginning of a longer one from the same seed.
pub proof fn padding_goes_on(seed: Seq<u8>, n: int, m: int)
    requires
        0 <= n <= m,
    ensures
        junk(seed, m).take(n) == junk(seed, n),
{
    assert(junk(seed, m).take(n) =~= junk(seed, n));
}

/// Growing a state keeps the words that it has, and makes 521 of them.
proof fn lemma_grown_word(s: Seq<u32>, n: int)
    requires
        17 <= s.len() <= 521,
        forall|k: int|
            17 <= k < s.len() ==> #[trigger] s[k] == (s[k - 17] << 23u32) ^ (s[k - 16] >> 9u32)
                ^ s[k - 1],
    ensures
        grown(s).len() == 521,
        forall|k: int| 0 <= k < s.len() ==> #[trigger] grown(s)[k] == s[k],
        17 <= n < 521 ==> grown(s)[n] == (grown(s)[n - 17] << 23u32) ^ (grown(s)[n - 16] >> 9u32)
            ^ grown(s)[n - 1],
    decreases 521 - s.len(),
{
    if s.len() < 521 {
        let m = s.len() as int;
        let t = s.push((s[m - 17] << 23u32) ^ (s[m - 16] >> 9u32) ^ s[m - 1]);
        assert forall|k: int| 17 <= k < t.len() implies #[trigger] t[k] == (t[k - 17] << 23u32) ^ (
        t[k - 16] >> 9u32) ^ t[k - 1] by {
            if k < m {
                assert(s[k] == (s[k - 17] << 23u32) ^ (s[k - 16] >> 9u32) ^ s[k - 1]);
            }
        }
        lemma_grown_word(t, n);
        assert forall|k: int| 0 <= k < s.len() implies #[trigger] grown(s)[k] == s[k] by {
            assert(grown(t)[k] == t[k]);
        }
    }
}

/// A state begins with the seed's seventeen words, and each further word mixes those
/// seventeen, sixteen and one before it.
pub proof fn a_state_grows_from_its_seed(seed: Seq<u8>, i: int, n: int)
    requires
        seed.len() == 68,
        0 <= i < 17,
        17 <= n < 521,
    ensures
        ({
            let g = grown(seed_words(seed));
            &&& g.len() == 521
            &&& g[i] == 0x100_0000 * seed[4 * i] + 0x1_0000 * seed[4 * i + 1] + 0x100 * seed[4 * i
                + 2] + seed[4 * i + 3]
            &&& g[n] == (g[n - 17] << 23u32) ^ (g[n - 16] >> 9u32) ^ g[n - 1]
        }),
{
    lemma_grown_word(seed_words(seed), n);
    assert(grown(seed_words(seed))[i] == seed_words(seed)[i]);
}

/// A word of the state after one step, by the words before it.
proof fn lemma_stepped(b: Seq<u32>, i: int)
    requires
        b.len() == 521,
        0 <= i < 521,
    ensures
        stepped(b).len() == 521,
        i < 32 ==> stepped(b)[i] == b[i] ^ b[i + 489],
        i >= 32 ==> stepped(b)[i] == b[i] ^ stepped(b)[i - 32],
{
}

/// The words of a generator begin with its state, and each behind that is the exclusive sum
/// of those 521 and 32 before it.
pub proof fn words_follow_their_recurrence(b: Seq<u32>, k: int)
    requires
        b.len() == 521,
        0 <= k,
    ensures
        k < 521 ==> stream_word(b, k) == b[k],
        k >= 521 ==> stream_word(b, k) == stream_word(b, k - 521) ^ stream_word(b, k - 32),
    decreases k,
{
    if k >= 1042 {
        words_follow_their_recurrence(stepped(b), k - 521);
    } else if k >= 521 {
        let i = k - 521;
        lemma_stepped(b, i);
        assert(stream_word(b, k) == stream_word(stepped(b), i));
        assert(stream_word(stepped(b), i) == stepped(b)[i]);
        if i < 32 {
            assert(stream_word(b, k - 32) == b[i + 489]);
        } else {
            assert(stream_word(b, k - 32) == stream_word(stepped(b), i - 32));
        }
        assert(stream_word(b, k - 521) == b[i]);
    }
}

/// The padding of a seed begins with the word number 2084 of its state.
pub proof fn padding_begins_behind_four_states(seed: Seq<u8>, k: int)
    requires
        seed.len() == 68,
        0 <= k,
    ensures
        stream_word(seeded(seed), k) == stream_word(grown(seed_words(seed)), k + 2084),
{
    let g = grown(seed_words(seed));
    assert(stream_word(g, k + 2084) == stream_word(stepped(g), k + 1563));
    assert(stream_word(stepped(g), k + 1563) == stream_word(stepped(stepped(g)), k + 1042));
    assert(stream_word(stepped(stepped(g)), k + 1042) == stream_word(
        stepped(stepped(stepped(g))),
        k + 521,
    ));
}

/// A word gives four bytes: its bits from 24, from 18, from 8 and from 0 on.
pub proof fn a_word_gives_four_bytes(seed: Seq<u8>, n: int, k: int)
    requires
        0 <= k,
        4 * k + 4 <= n,
    ensures
        ({
            let w = stream_word(seeded(seed), k);
            let j = junk(seed, n);
            &&& j.len() == n
            &&& j[4 * k] == (w >> 24u32) & 0xFF
            &&& j[4 * k + 1] == (w >> 18u32) & 0xFF
            &&& j[4 * k + 2] == (w >> 8u32) & 0xFF
            &&& j[4 * k + 3] == w & 0xFF
        }),
{
    let w = stream_word(seeded(seed), k);
    assert((w / 0x100_0000) % 0x100 == (w >> 24u32) & 0xFF && (w / 0x4_0000) % 0x100 == (w
        >> 18u32) & 0xFF && (w / 0x100) % 0x100 == (w >> 8u32) & 0xFF && w % 0x100 == w & 0xFF)
        by (bit_vector);
}

} // verus!
