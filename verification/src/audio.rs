//! Samples of sound: their bytes on the wire, and the queues between the devices.

use base64::Engine;
use std::collections::VecDeque;
use vstd::prelude::*;

verus! {

/// How many samples a second the wire carries.
pub const SAMPLE_RATE: u32 = 24_000;

/// How many samples a second the echo canceller takes.
pub const AEC_RATE: u32 = 48_000;

/// How many samples the echo canceller takes at a time: ten milliseconds of sound.
pub const AEC_FRAME: usize = 480;

/// How many nanoseconds lie between two frames of the echo canceller.
pub const FRAME_NANOS: u64 = 10_000_000;

/// A sample as the number that its two bytes make.
pub open spec fn word(s: i16) -> int {
    if s >= 0 {
        s as int
    } else {
        s + 65536
    }
}

/// The sample whose two bytes make a number.
pub open spec fn unword(n: int) -> i16 {
    if n < 32768 {
        n as i16
    } else {
        (n - 65536) as i16
    }
}

/// The bytes of samples, the low byte of each first.
pub open spec fn sample_bytes(samples: Seq<i16>) -> Seq<u8> {
    Seq::new(
        2 * samples.len(),
        |i: int|
            if i % 2 == 0 {
                (word(samples[i / 2]) % 256) as u8
            } else {
                (word(samples[i / 2]) / 256) as u8
            },
    )
}

/// The samples that bytes make two by two; an odd byte at the end is left out.
pub open spec fn samples_of(bytes: Seq<u8>) -> Seq<i16> {
    Seq::new(
        (bytes.len() / 2) as nat,
        |i: int| unword(bytes[2 * i] as int + 256 * bytes[2 * i + 1]),
    )
}

/// Samples survive being turned into bytes and back.
pub proof fn law_samples_survive_bytes(samples: Seq<i16>)
    ensures
        samples_of(sample_bytes(samples)) == samples,
{
    let b = sample_bytes(samples);
    assert forall|i: int| 0 <= i < samples.len() implies samples_of(b)[i] == samples[i] by {
        let w = word(samples[i]);
        assert((2 * i) / 2 == i && (2 * i) % 2 == 0);
        assert((2 * i + 1) / 2 == i && (2 * i + 1) % 2 == 1);
        assert(b[2 * i] == w % 256);
        assert(b[2 * i + 1] == w / 256);
    }
    assert(samples_of(b) =~= samples);
}

/// The bytes of samples.
pub fn to_bytes(samples: &Vec<i16>) -> (r: Vec<u8>)
    ensures
        r@ == sample_bytes(samples@),
{
    let ghost want = sample_bytes(samples@);
    let mut out: Vec<u8> = Vec::new();
    let mut k: usize = 0;
    assert(out@ =~= want.take(0));
    while k < samples.len()
        invariant
            k <= samples@.len(),
            want == sample_bytes(samples@),
            out@ == want.take(2 * k),
        decreases samples.len() - k,
    {
        let s: i16 = samples[k];
        let w: u16 = if s >= 0 {
            s as u16
        } else {
            (s as i32 + 65536) as u16
        };
        assert(w == word(s));
        assert((2 * k) / 2 == k && (2 * k) % 2 == 0);
        assert((2 * k + 1) / 2 == k && (2 * k + 1) % 2 == 1);
        out.push((w % 256) as u8);
        out.push((w / 256) as u8);
        assert(want.take(2 * (k + 1)) =~= want.take(2 * k).push(want[2 * k]).push(
            want[2 * k + 1],
        ));
        k = k + 1;
    }
    assert(want.take(2 * k) =~= want);
    out
}

/// The samples that bytes make.
pub fn from_bytes(bytes: &Vec<u8>) -> (r: Vec<i16>)
    ensures
        r@ == samples_of(bytes@),
{
    let ghost want = samples_of(bytes@);
    let len: usize = bytes.len();
    let n: usize = len / 2;
    let mut out: Vec<i16> = Vec::new();
    let mut k: usize = 0;
    assert(out@ =~= want.take(0));
    while k < n
        invariant
            k <= n,
            len == bytes@.len(),
            n == len / 2,
            want == samples_of(bytes@),
            out@ == want.take(k as int),
        decreases n - k,
    {
        let w: u32 = bytes[2 * k] as u32 + 256 * (bytes[2 * k + 1] as u32);
        let s: i16 = if w < 32768 {
            w as i16
        } else {
            (w as i32 - 65536) as i16
        };
        out.push(s);
        assert(want.take(k + 1) =~= want.take(k as int).push(want[k as int]));
        k = k + 1;
    }
    assert(want.take(k as int) =~= want);
    out
}

/// The text that the standard engine of base64 gives for bytes.
pub uninterp spec fn base64_text(bytes: Seq<u8>) -> Seq<char>;

/// The bytes that the standard engine of base64 reads from a text.
pub uninterp spec fn base64_bytes(text: Seq<char>) -> Option<Seq<u8>>;

/// `Engine::encode` of `base64::engine::general_purpose::STANDARD`. The text rests on the
/// bytes alone, and the same engine reads the bytes back from it.
#[verifier::external_body]
pub(crate) fn encode_base64(bytes: &Vec<u8>) -> (r: String)
    requires
        bytes@.len() <= usize::MAX / 4,
    ensures
        r@ == base64_text(bytes@),
        base64_bytes(r@) == Some(bytes@),
{
    base64::engine::general_purpose::STANDARD.encode(bytes)
}

/// `Engine::decode` of `base64::engine::general_purpose::STANDARD`. What is read rests on the
/// text alone.
#[verifier::external_body]
pub(crate) fn decode_base64(text: &str) -> (r: Option<Vec<u8>>)
    ensures
        match r {
            Some(b) => base64_bytes(text@) == Some(b@),
            None => base64_bytes(text@) is None,
        },
{
    base64::engine::general_purpose::STANDARD.decode(text).ok()
}

/// The samples in a text of the wire.
pub open spec fn wire_samples(text: Seq<char>) -> Option<Seq<i16>> {
    match base64_bytes(text) {
        Some(b) => Some(samples_of(b)),
        None => None,
    }
}

/// Samples as the text that the wire carries. The samples can be read back from it.
pub fn encode_samples(samples: &Vec<i16>) -> (r: String)
    requires
        samples@.len() <= usize::MAX / 8,
    ensures
        r@ == base64_text(sample_bytes(samples@)),
        wire_samples(r@) == Some(samples@),
{
    proof {
        law_samples_survive_bytes(samples@);
    }
    encode_base64(&to_bytes(samples))
}

/// The samples in a text of the wire; `None` where it is malformed.
pub fn decode_samples(text: &str) -> (r: Option<Vec<i16>>)
    ensures
        match r {
            Some(v) => wire_samples(text@) == Some(v@),
            None => wire_samples(text@) is None,
        },
{
    match decode_base64(text) {
        Some(b) => Some(from_bytes(&b)),
        None => None,
    }
}

/// The smaller of two numbers.
pub open spec fn smaller(a: int, b: int) -> int {
    if a <= b {
        a
    } else {
        b
    }
}

/// The first `n` samples of a queue, silence after its end.
pub open spec fn padded<T>(queue: Seq<T>, n: nat, silence: T) -> Seq<T> {
    Seq::new(
        n,
        |i: int|
            if i < queue.len() {
                queue[i]
            } else {
                silence
            },
    )
}

/// Takes `n` samples off the front of a queue, with silence for what is missing.
pub fn pull_or_pad<T: Copy>(queue: &mut VecDeque<T>, n: usize, silence: T) -> (r: Vec<T>)
    ensures
        r@ == padded(old(queue)@, n as nat, silence),
        final(queue)@ == old(queue)@.skip(smaller(n as int, old(queue)@.len() as int)),
{
    let ghost before = queue@;
    let ghost want = padded(before, n as nat, silence);
    let mut out: Vec<T> = Vec::new();
    let mut k: usize = 0;
    assert(out@ =~= want.take(0));
    assert(queue@ =~= before.skip(0));
    while k < n
        invariant
            k <= n,
            want == padded(before, n as nat, silence),
            out@ == want.take(k as int),
            queue@ == before.skip(smaller(k as int, before.len() as int)),
        decreases n - k,
    {
        let s: T = match queue.pop_front() {
            Some(s) => s,
            None => silence,
        };
        out.push(s);
        assert(want.take(k + 1) =~= want.take(k as int).push(want[k as int]));
        assert(queue@ =~= before.skip(smaller(k + 1, before.len() as int)));
        k = k + 1;
    }
    assert(want.take(k as int) =~= want);
    out
}

/// The first samples of a queue, at most `n`; the queue keeps them.
pub fn peek_front<T: Copy>(queue: &VecDeque<T>, n: usize) -> (r: Vec<T>)
    ensures
        r@ == queue@.take(smaller(n as int, queue@.len() as int)),
{
    let m: usize = if n <= queue.len() {
        n
    } else {
        queue.len()
    };
    let mut out: Vec<T> = Vec::new();
    let mut k: usize = 0;
    assert(out@ =~= queue@.take(0));
    while k < m
        invariant
            k <= m <= queue@.len(),
            out@ == queue@.take(k as int),
        decreases m - k,
    {
        out.push(queue[k]);
        assert(queue@.take(k + 1) =~= queue@.take(k as int).push(queue@[k as int]));
        k = k + 1;
    }
    out
}

/// How many samples at the rate of the speaker make a frame of the echo canceller, with two to
/// spare for what lies between them.
pub fn reference_len(out_rate: u32) -> (r: usize)
    ensures
        r == AEC_FRAME * out_rate / AEC_RATE as int + 2,
{
    let total: u64 = 480u64 * out_rate as u64;
    let n: u64 = total / 48_000u64;
    assert(n <= 42_949_673);
    n as usize + 2
}

/// How many samples of the first frame there are.
pub open spec fn frame_len(n: int, channels: int) -> int {
    smaller(n, if channels < 1 {
        1
    } else {
        channels
    })
}

/// What is played next for `n` values: each sample of the queue once for every channel, and
/// silence where the queue has run dry.
pub open spec fn played<T>(queue: Seq<T>, n: int, channels: int, silence: T) -> Seq<T>
    decreases n,
{
    if n <= 0 {
        Seq::empty()
    } else {
        let k = frame_len(n, channels);
        let s = if queue.len() > 0 {
            queue[0]
        } else {
            silence
        };
        let rest = if queue.len() > 0 {
            queue.skip(1)
        } else {
            queue
        };
        Seq::new(k as nat, |i: int| s) + played(rest, n - k, channels, silence)
    }
}

/// What is left of the queue when `n` values have been played.
pub open spec fn unplayed<T>(queue: Seq<T>, n: int, channels: int) -> Seq<T>
    decreases n,
{
    if n <= 0 {
        queue
    } else {
        unplayed(
            if queue.len() > 0 {
                queue.skip(1)
            } else {
                queue
            },
            n - frame_len(n, channels),
            channels,
        )
    }
}

/// The values for the speaker, `n` of them, from the queue of what is to be played.
pub fn fill_output<T: Copy>(
    queue: &mut VecDeque<T>,
    n: usize,
    channels: usize,
    silence: T,
) -> (r: Vec<T>)
    ensures
        r@ == played(old(queue)@, n as int, channels as int, silence),
        final(queue)@ == unplayed(old(queue)@, n as int, channels as int),
{
    let ghost want = played(queue@, n as int, channels as int, silence);
    let ghost left = unplayed(queue@, n as int, channels as int);
    let wide: usize = if channels < 1 {
        1
    } else {
        channels
    };
    let mut out: Vec<T> = Vec::new();
    let mut rest: usize = n;
    assert(out@ + want =~= want);
    while rest > 0
        invariant
            wide >= 1,
            wide == if channels < 1 {
                1
            } else {
                channels
            },
            out@ + played(queue@, rest as int, channels as int, silence) == want,
            unplayed(queue@, rest as int, channels as int) == left,
        decreases rest,
    {
        let ghost before = queue@;
        let ghost so_far = out@;
        let s: T = match queue.pop_front() {
            Some(s) => s,
            None => silence,
        };
        let k: usize = if rest <= wide {
            rest
        } else {
            wide
        };
        let mut j: usize = 0;
        while j < k
            invariant
                j <= k,
                out@ == so_far + Seq::new(j as nat, |i: int| s),
            decreases k - j,
        {
            out.push(s);
            j = j + 1;
            assert(out@ =~= so_far + Seq::new(j as nat, |i: int| s));
        }
        proof {
            let one = Seq::new(k as nat, |i: int| s);
            let next = if before.len() > 0 {
                before.skip(1)
            } else {
                before
            };
            assert(queue@ =~= next);
            let tail = played(next, rest - k, channels as int, silence);
            assert(played(before, rest as int, channels as int, silence) == one + tail);
            assert((so_far + one) + tail =~= so_far + (one + tail));
        }
        rest = rest - k;
    }
    assert(out@ + Seq::<T>::empty() =~= out@);
    out
}

/// What is played fills the speaker's buffer exactly.
pub proof fn law_played_fills_the_buffer<T>(queue: Seq<T>, n: int, channels: int, silence: T)
    requires
        n >= 0,
    ensures
        played(queue, n, channels, silence).len() == n,
    decreases n,
{
    if n > 0 {
        law_played_fills_the_buffer(
            if queue.len() > 0 {
                queue.skip(1)
            } else {
                queue
            },
            n - frame_len(n, channels),
            channels,
            silence,
        );
    }
}

/// The sum of the samples `data[lo..hi]`.
pub open spec fn sample_sum(data: Seq<i16>, lo: int, hi: int) -> int
    decreases hi - lo,
{
    if hi <= lo {
        0
    } else {
        sample_sum(data, lo, hi - 1) + data[hi - 1]
    }
}

/// Division that rounds towards zero.
pub open spec fn toward_zero(a: int, b: int) -> int {
    if a >= 0 {
        a / b
    } else {
        -((-a) / b)
    }
}

/// The samples from the `lo`-th on, the channels of each frame as their mean. A last frame that
/// is not whole counts its missing channels as silence.
pub open spec fn mixed_from(data: Seq<i16>, channels: int, lo: int) -> Seq<i16>
    decreases data.len() - lo,
{
    if lo >= data.len() {
        Seq::empty()
    } else {
        let wide = if channels < 1 {
            1
        } else {
            channels
        };
        let k = frame_len(data.len() - lo, channels);
        seq![toward_zero(sample_sum(data, lo, lo + k), wide) as i16] + mixed_from(
            data,
            channels,
            lo + k,
        )
    }
}

/// Sound with several channels as sound with one.
pub fn downmix_i16_to_i16(data: &[i16], channels: u16) -> (r: Vec<i16>)
    ensures
        r@ == mixed_from(data@, channels as int, 0),
{
    let ghost want = mixed_from(data@, channels as int, 0);
    let wide: usize = if channels < 1 {
        1
    } else {
        channels as usize
    };
    let mut out: Vec<i16> = Vec::new();
    let mut lo: usize = 0;
    assert(out@ + want =~= want);
    while lo < data.len()
        invariant
            lo <= data@.len(),
            1 <= wide <= 65535,
            wide == if channels < 1 {
                1
            } else {
                channels as int
            },
            out@ + mixed_from(data@, channels as int, lo as int) == want,
        decreases data.len() - lo,
    {
        let hi: usize = if data.len() - lo <= wide {
            data.len()
        } else {
            lo + wide
        };
        let mut sum: i32 = 0;
        let mut j: usize = lo;
        while j < hi
            invariant
                lo <= j <= hi <= data@.len(),
                hi - lo <= wide <= 65535,
                sum == sample_sum(data@, lo as int, j as int),
                -32768 * (j - lo) <= sum <= 32767 * (j - lo),
            decreases hi - j,
        {
            sum = sum + data[j] as i32;
            j = j + 1;
        }
        let w: i32 = wide as i32;
        assert(-32768 * w <= sum <= 32767 * w);
        let mean: i32 = if sum >= 0 {
            assert(0 <= sum / w <= 32767) by (nonlinear_arith)
                requires
                    0 <= sum <= 32767 * w,
                    w >= 1,
            ;
            sum / w
        } else {
            let m: i32 = -sum;
            assert(0 <= m / w <= 32768) by (nonlinear_arith)
                requires
                    0 <= m <= 32768 * w,
                    w >= 1,
            ;
            -(m / w)
        };
        let ghost so_far = out@;
        out.push(mean as i16);
        proof {
            let tail = mixed_from(data@, channels as int, hi as int);
            assert(mixed_from(data@, channels as int, lo as int) == seq![mean as i16] + tail);
            assert(out@ + tail =~= so_far + (seq![mean as i16] + tail));
        }
        lo = hi;
    }
    assert(out@ + Seq::<i16>::empty() =~= out@);
    out
}

/// When the echo canceller takes its next frame, in nanoseconds of a clock that only goes
/// forward.
pub struct Pacer {
    pub next: u64,
}

impl Pacer {
    /// A pacer whose first frame is due now.
    pub fn new(now: u64) -> (r: Pacer)
        ensures
            r.next == now,
    {
        Pacer { next: now }
    }

    /// Whether a frame is due. One that is due is taken, and the next is due a frame later, so
    /// that a stall is caught up frame by frame.
    pub fn due(&mut self, now: u64) -> (r: bool)
        requires
            now <= u64::MAX - FRAME_NANOS,
        ensures
            r == (now >= old(self).next),
            final(self).next == if r {
                old(self).next + FRAME_NANOS
            } else {
                old(self).next as int
            },
    {
        if now >= self.next {
            self.next = self.next + FRAME_NANOS;
            true
        } else {
            false
        }
    }
}

/// A sound of one channel stays as it is.
pub proof fn law_one_channel_stays(data: Seq<i16>, lo: int)
    requires
        0 <= lo <= data.len(),
    ensures
        mixed_from(data, 1, lo) == data.skip(lo),
    decreases data.len() - lo,
{
    if lo < data.len() {
        law_one_channel_stays(data, lo + 1);
        assert(sample_sum(data, lo, lo) == 0);
        assert(sample_sum(data, lo, lo + 1) == data[lo]);
        assert(toward_zero(data[lo] as int, 1) == data[lo]);
        assert(seq![data[lo]] + data.skip(lo + 1) =~= data.skip(lo));
    } else {
        assert(data.skip(lo) =~= Seq::<i16>::empty());
    }
}

/// Of two channels the mean is taken, frame by frame, and cut towards zero.
pub proof fn law_two_channels_are_halved(data: Seq<i16>, lo: int)
    requires
        0 <= lo,
        lo + 2 <= data.len(),
    ensures
        mixed_from(data, 2, lo).len() > 0,
        data[lo] + data[lo + 1] >= 0 ==> mixed_from(data, 2, lo)[0] == (data[lo] + data[lo + 1]) / 2,
        data[lo] + data[lo + 1] < 0 ==> mixed_from(data, 2, lo)[0] == -((-(data[lo] + data[lo + 1]))
            / 2),
        mixed_from(data, 2, lo).skip(1) == mixed_from(data, 2, lo + 2),
{
    assert(sample_sum(data, lo, lo) == 0);
    assert(sample_sum(data, lo, lo + 1) == data[lo]);
    assert(sample_sum(data, lo, lo + 2) == data[lo] + data[lo + 1]);
    assert(frame_len(data.len() - lo, 2) == 2);
    let rest = mixed_from(data, 2, lo + 2);
    assert(mixed_from(data, 2, lo).skip(1) =~= rest);
}

/// Each sample is played on all channels of a frame, in the order of the queue; an empty queue
/// plays silence.
pub proof fn law_samples_are_played_in_order<T>(queue: Seq<T>, n: int, channels: int, silence: T, i: int)
    requires
        1 <= channels <= n,
        0 <= i < channels,
    ensures
        queue.len() > 0 ==> played(queue, n, channels, silence)[i] == queue[0],
        queue.len() == 0 ==> played(queue, n, channels, silence)[i] == silence,
        queue.len() > 0 ==> played(queue, n, channels, silence).skip(channels) == played(
            queue.skip(1),
            n - channels,
            channels,
            silence,
        ),
        queue.len() > 0 ==> unplayed(queue, n, channels) == unplayed(
            queue.skip(1),
            n - channels,
            channels,
        ),
        unplayed(queue, 0, channels) == queue,
{
    let s = if queue.len() > 0 {
        queue[0]
    } else {
        silence
    };
    let rest = if queue.len() > 0 {
        queue.skip(1)
    } else {
        queue
    };
    let head = Seq::new(channels as nat, |j: int| s);
    let tail = played(rest, n - channels, channels, silence);
    assert(played(queue, n, channels, silence) =~= head + tail);
    assert((head + tail).skip(channels) =~= tail);
}

} // verus!
