//! Clips: what a WAV file holds, as two channels, at the rate of the output.

use vstd::prelude::*;

use crate::text::{decimal, decimal_of, join2, join3, lemma_push_contains};

verus! {

// ---------------------------------------------------------------------------------------------
// WAV files
// ---------------------------------------------------------------------------------------------

/// What the header of a WAV file says of its samples.
#[derive(Debug, Clone, Copy, PartialEq, Eq, Structural)]
pub struct WavHeader {
    pub sample_rate: u32,
    pub channels: u16,
    /// The samples are floating-point numbers, not integers.
    pub float: bool,
    pub bits: u16,
}

/// The header that `hound::WavReader::new` finds at the start of these bytes, or the text of the
/// error that it gives.
pub uninterp spec fn wav_header(bytes: Seq<u8>) -> Result<WavHeader, Seq<char>>;

/// The samples that `hound::WavReader::samples` gives for these bytes when asked for integers, in
/// their order, up to as many as there are bytes. A sample that it cannot read is none.
pub uninterp spec fn wav_integers(bytes: Seq<u8>) -> Seq<Option<i32>>;

/// Calls `hound::WavReader::new` and `spec` on a file held in memory. Claimed: what comes back is
/// settled by the bytes alone. What the header is for given bytes is left to `hound`.
#[verifier::external_body]
fn read_header(bytes: &[u8]) -> (r: Result<WavHeader, String>)
    ensures
        match r {
            Ok(h) => wav_header(bytes@) == Ok::<WavHeader, Seq<char>>(h),
            Err(e) => wav_header(bytes@) == Err::<WavHeader, Seq<char>>(e@),
        },
{
    let spec = hound::WavReader::new(bytes).map_err(|e| e.to_string())?.spec();
    Ok(
        WavHeader {
            sample_rate: spec.sample_rate,
            channels: spec.channels,
            float: spec.sample_format == hound::SampleFormat::Float,
            bits: spec.bits_per_sample,
        },
    )
}

/// Calls `hound::WavReader::samples` for integers on a file held in memory. Claimed: what comes
/// back is settled by the bytes alone. A sample takes a byte or more, so that none is left to be
/// read after as many as there are bytes, whatever length the file claims to have. Where the
/// header cannot be read there are no samples.
#[verifier::external_body]
fn read_integers(bytes: &[u8]) -> (r: Vec<Option<i32>>)
    ensures
        r@ == wav_integers(bytes@),
{
    match hound::WavReader::new(bytes) {
        Ok(mut reader) => reader.samples::<i32>().take(bytes.len()).map(|s| s.ok()).collect(),
        Err(_) => Vec::new(),
    }
}

/// How the samples of a WAV file are stored.
#[derive(Debug, Clone, Copy, PartialEq, Eq, Structural)]
pub enum WavFormat {
    /// As they are.
    Float,
    /// As integers, out of this many for the full range to one side.
    Integer(u32),
}

/// The formats that can be read.
pub open spec fn wav_format(float: bool, bits: u16) -> Option<WavFormat> {
    if float && bits == 32 {
        Some(WavFormat::Float)
    } else if !float && bits == 16 {
        Some(WavFormat::Integer(32768))
    } else if !float && bits == 24 {
        Some(WavFormat::Integer(8388608))
    } else {
        None
    }
}

/// How the samples of the file at `path` are stored, or why they cannot be read.
pub open spec fn format_of(path: Seq<char>, header: Result<WavHeader, Seq<char>>) -> Result<
    WavFormat,
    Seq<char>,
> {
    match header {
        Err(e) => Err(path + ": "@ + e),
        Ok(h) => match wav_format(h.float, h.bits) {
            Some(f) => Ok(f),
            None => Err(
                path + ": unsupported WAV format (bits="@ + decimal(h.bits as nat) + (if h.float {
                    ", format=Float)"@
                } else {
                    ", format=Int)"@
                }),
            ),
        },
    }
}

/// How the samples of the file at `path` are stored, given what its header was found to be.
pub fn choose_format(path: &str, header: &Result<WavHeader, String>) -> (r: Result<
    WavFormat,
    String,
>)
    ensures
        ({
            let found = match header {
                Ok(h) => Ok::<WavHeader, Seq<char>>(*h),
                Err(e) => Err(e@),
            };
            match r {
                Ok(f) => format_of(path@, found) == Ok::<WavFormat, Seq<char>>(f),
                Err(e) => format_of(path@, found) == Err::<WavFormat, Seq<char>>(e@),
            }
        }),
{
    let h = match header {
        Err(e) => {
            return Err(join3(path, ": ", e.as_str()));
        },
        Ok(h) => *h,
    };
    if h.float && h.bits == 32 {
        return Ok(WavFormat::Float);
    }
    if !h.float && h.bits == 16 {
        return Ok(WavFormat::Integer(32768));
    }
    if !h.float && h.bits == 24 {
        return Ok(WavFormat::Integer(8388608));
    }
    let bits = decimal_of(h.bits as u64);
    let format = if h.float {
        ", format=Float)"
    } else {
        ", format=Int)"
    };
    let head = join3(path, ": unsupported WAV format (bits=", bits.as_str());
    Err(join2(head.as_str(), format))
}

/// The samples that could be read, in their order.
pub open spec fn readable(samples: Seq<Option<i32>>) -> Seq<i32>
    decreases samples.len(),
{
    if samples.len() == 0 {
        seq![]
    } else {
        match samples.last() {
            Some(x) => readable(samples.drop_last()).push(x),
            None => readable(samples.drop_last()),
        }
    }
}

/// The samples that could be read, in their order.
pub fn readable_samples(samples: &Vec<Option<i32>>) -> (r: Vec<i32>)
    ensures
        r@ == readable(samples@),
{
    let mut out: Vec<i32> = Vec::new();
    let mut i: usize = 0;
    assert(out@ =~= readable(samples@.take(0)));
    while i < samples.len()
        invariant
            i <= samples@.len(),
            out@ == readable(samples@.take(i as int)),
        decreases samples@.len() - i,
    {
        assert(samples@.take(i + 1).drop_last() =~= samples@.take(i as int));
        assert(samples@.take(i + 1).last() == samples@[i as int]);
        if let Some(x) = samples[i] {
            out.push(x);
        }
        i += 1;
    }
    assert(samples@.take(i as int) =~= samples@);
    out
}

/// A WAV file: its samples, where they are integers, and how they are stored.
#[derive(Debug)]
pub struct Wav {
    pub sample_rate: u32,
    pub channels: u16,
    pub format: WavFormat,
    pub integers: Vec<i32>,
}

/// Read the WAV file at `path`, of which these are the bytes. Samples that are floating-point
/// numbers are left in the bytes.
pub fn read_wav(path: &str, bytes: &[u8]) -> (r: Result<Wav, String>)
    ensures
        match r {
            Ok(w) => {
                &&& format_of(path@, wav_header(bytes@)) == Ok::<WavFormat, Seq<char>>(w.format)
                &&& w.sample_rate == wav_header(bytes@)->Ok_0.sample_rate
                &&& w.channels == wav_header(bytes@)->Ok_0.channels
                &&& w.integers@ == match w.format {
                    WavFormat::Float => seq![],
                    WavFormat::Integer(_) => readable(wav_integers(bytes@)),
                }
            },
            Err(e) => format_of(path@, wav_header(bytes@)) == Err::<WavFormat, Seq<char>>(e@),
        },
{
    let header = read_header(bytes);
    let format = match choose_format(path, &header) {
        Err(e) => {
            return Err(e);
        },
        Ok(f) => f,
    };
    match header {
        Err(e) => Err(e),
        Ok(h) => {
            let integers = match format {
                WavFormat::Float => Vec::new(),
                WavFormat::Integer(_) => readable_samples(&read_integers(bytes)),
            };
            Ok(Wav { sample_rate: h.sample_rate, channels: h.channels, format, integers })
        },
    }
}

/// Whether every sample could be read.
pub open spec fn all_readable(samples: Seq<Option<i32>>) -> bool {
    forall|i: int| 0 <= i < samples.len() ==> samples[i] is Some
}

/// What the samples say, each of which could be read.
pub open spec fn readings(samples: Seq<Option<i32>>) -> Seq<i32> {
    Seq::new(samples.len(), |i: int| samples[i]->0)
}

/// Every sample that could be read is among the samples of the file, and samples that could all be
/// read are all kept.
pub proof fn readable_samples_are_kept(samples: Seq<Option<i32>>)
    ensures
        forall|x: i32| readable(samples).contains(x) <==> samples.contains(Some(x)),
        all_readable(samples) ==> readable(samples) == readings(samples),
{
    assert forall|x: i32| readable(samples).contains(x) <==> samples.contains(Some(x)) by {
        lemma_readable_contains(samples, x);
    }
    if all_readable(samples) {
        lemma_all_readable(samples);
    }
}

proof fn lemma_readable_contains(samples: Seq<Option<i32>>, x: i32)
    ensures
        readable(samples).contains(x) <==> samples.contains(Some(x)),
    decreases samples.len(),
{
    if samples.len() > 0 {
        let d = samples.drop_last();
        let last = samples.last();
        lemma_readable_contains(d, x);
        assert(samples =~= d.push(last));
        lemma_push_contains(d, last);
        assert(samples.contains(Some(x)) <==> d.contains(Some(x)) || last == Some(x));
        match last {
            None => {
                assert(readable(samples) == readable(d));
            },
            Some(y) => {
                assert(readable(samples) == readable(d).push(y));
                lemma_push_contains(readable(d), y);
            },
        }
    } else {
        assert(readable(samples).len() == 0);
    }
}

proof fn lemma_all_readable(samples: Seq<Option<i32>>)
    requires
        all_readable(samples),
    ensures
        readable(samples) == readings(samples),
    decreases samples.len(),
{
    if samples.len() > 0 {
        let d = samples.drop_last();
        assert forall|i: int| 0 <= i < d.len() implies d[i] is Some by {
            assert(d[i] == samples[i]);
        }
        lemma_all_readable(d);
        assert(samples[samples.len() - 1] is Some);
        assert(readable(samples) == readable(d).push(samples.last()->0));
        assert(readings(samples) =~= readings(d).push(samples.last()->0));
    } else {
        assert(readable(samples) =~= readings(samples));
    }
}

// ---------------------------------------------------------------------------------------------
// Channels
// ---------------------------------------------------------------------------------------------

/// Each sample twice.
pub open spec fn doubled<T>(m: Seq<T>) -> Seq<T> {
    Seq::new(2 * m.len(), |i: int| m[i / 2])
}

/// One channel as two.
pub fn mono_to_stereo<T: Copy>(m: &Vec<T>) -> (r: Vec<T>)
    ensures
        r@ == doubled(m@),
{
    let mut out: Vec<T> = Vec::new();
    let mut i: usize = 0;
    while i < m.len()
        invariant
            i <= m@.len(),
            out@ == doubled(m@.take(i as int)),
        decreases m@.len() - i,
    {
        let x = m[i];
        out.push(x);
        out.push(x);
        assert(out@ =~= doubled(m@.take(i + 1)));
        i += 1;
    }
    assert(m@.take(i as int) =~= m@);
    out
}

/// The samples of a clip as two channels; it must have one or two.
pub fn as_stereo<T: Copy>(path: &str, channels: u16, raw: Vec<T>) -> (r: Result<Vec<T>, String>)
    ensures
        match r {
            Ok(v) => (channels == 1 && v@ == doubled(raw@)) || (channels == 2 && v@ == raw@),
            Err(e) => channels != 1 && channels != 2 && e@ == path@
                + ": expected mono or stereo WAV, got "@ + decimal(channels as nat) + " channels"@,
        },
{
    if channels == 1 {
        Ok(mono_to_stereo(&raw))
    } else if channels == 2 {
        Ok(raw)
    } else {
        let head = join3(
            path,
            ": expected mono or stereo WAV, got ",
            decimal_of(channels as u64).as_str(),
        );
        Err(join2(head.as_str(), " channels"))
    }
}

// ---------------------------------------------------------------------------------------------
// Rates
// ---------------------------------------------------------------------------------------------

/// How many frames a clip has at another rate, at least one.
pub open spec fn resampled_len(in_frames: nat, in_rate: u32, out_rate: u32) -> nat {
    let n = in_frames * (out_rate as nat) / (in_rate as nat);
    if n < 1 {
        1
    } else {
        n
    }
}

/// How many frames a clip has at another rate, if they can be counted.
pub fn resampled_frames(in_frames: u64, in_rate: u32, out_rate: u32) -> (r: Option<u64>)
    requires
        in_rate > 0,
    ensures
        match r {
            Some(n) => n == resampled_len(in_frames as nat, in_rate, out_rate),
            None => resampled_len(in_frames as nat, in_rate, out_rate) > u64::MAX,
        },
{
    assert(in_frames as u128 * out_rate as u128 <= 0xffff_ffff_ffff_ffff * 0xffff_ffff)
        by (nonlinear_arith)
        requires
            in_frames <= 0xffff_ffff_ffff_ffff,
            out_rate <= 0xffff_ffff,
    ;
    let n: u128 = in_frames as u128 * out_rate as u128 / (in_rate as u128);
    if n > u64::MAX as u128 {
        None
    } else if n < 1 {
        Some(1)
    } else {
        Some(n as u64)
    }
}

/// The two frames that a resampled frame lies between, and how far it is from the first to the
/// second, as a part of a whole.
#[derive(Debug, Clone, Copy, PartialEq, Eq, Structural)]
pub struct Taps {
    pub first: u64,
    pub second: u64,
    pub part: u64,
    pub whole: u64,
}

/// `i` held between 0 and the last frame.
pub open spec fn frame_near(i: int, in_frames: nat) -> int {
    if i < 0 {
        0
    } else if i >= in_frames {
        in_frames - 1
    } else {
        i
    }
}

/// Twice the position of the middle of frame `of` in the clip, times the output rate: the middle
/// of frame `i` of the clip is at `i`.
pub open spec fn doubled_position(of: u64, in_rate: u32, out_rate: u32) -> int {
    (2 * of + 1) * in_rate - out_rate
}

/// Where the frame `of` lies in the clip.
pub open spec fn taps(of: u64, in_frames: u64, in_rate: u32, out_rate: u32) -> Taps {
    let whole = 2 * out_rate as int;
    let pos = doubled_position(of, in_rate, out_rate);
    Taps {
        first: frame_near(pos / whole, in_frames as nat) as u64,
        second: frame_near(pos / whole + 1, in_frames as nat) as u64,
        part: (pos % whole) as u64,
        whole: whole as u64,
    }
}

/// Where the frame `of` lies in the clip.
pub fn resample_taps(of: u64, in_frames: u64, in_rate: u32, out_rate: u32) -> (r: Taps)
    requires
        in_frames > 0,
        out_rate > 0,
    ensures
        r == taps(of, in_frames, in_rate, out_rate),
{
    let whole: u128 = 2 * (out_rate as u128);
    let odd: u128 = 2 * (of as u128) + 1;
    assert(0 <= odd * in_rate <= 0x1_ffff_ffff_ffff_ffff * 0xffff_ffff) by (nonlinear_arith)
        requires
            0 <= odd <= 0x1_ffff_ffff_ffff_ffff,
            0 <= in_rate <= 0xffff_ffff,
    ;
    // One whole is added, so that the position is not negative.
    let raised: u128 = odd * (in_rate as u128) + (out_rate as u128);
    let q: u128 = raised / whole;
    let m: u128 = raised % whole;
    let ghost pos = doubled_position(of, in_rate, out_rate);
    proof {
        assert(pos + whole == raised);
        vstd::arithmetic::div_mod::lemma_fundamental_div_mod(raised as int, whole as int);
        vstd::arithmetic::div_mod::lemma_mod_bound(raised as int, whole as int);
        let k = q as int - 1;
        assert(whole as int * q as int - whole as int == whole as int * (q as int - 1))
            by (nonlinear_arith);
        assert(pos == k * whole as int + m as int) by (nonlinear_arith)
            requires
                pos + whole == raised,
                raised as int == whole as int * q as int + m as int,
                k == q as int - 1,
        ;
        vstd::arithmetic::div_mod::lemma_fundamental_div_mod_converse(
            pos,
            whole as int,
            k,
            m as int,
        );
    }
    let n: u128 = in_frames as u128;
    let first: u64 = if q < 1 {
        0
    } else if q - 1 >= n {
        in_frames - 1
    } else {
        (q - 1) as u64
    };
    let second: u64 = if q >= n {
        in_frames - 1
    } else {
        q as u64
    };
    Taps { first, second, part: m as u64, whole: whole as u64 }
}

// ---------------------------------------------------------------------------------------------
// Laws
// ---------------------------------------------------------------------------------------------

/// Samples are read as floats of 32 bits, or as integers of 16 or 24 bits, which reach from minus a
/// half of all of them to just below a half.
pub proof fn integers_reach_to_half_of_their_range(float: bool, bits: u16)
    ensures
        float ==> (wav_format(float, bits) is Some <==> bits == 32),
        float && bits == 32 ==> wav_format(float, bits)->0 is Float,
        !float ==> (wav_format(float, bits) is Some <==> bits == 16 || bits == 24),
        !float && wav_format(float, bits) is Some ==> wav_format(float, bits)->0 is Integer && 2
            * wav_format(float, bits)->0->Integer_0 == vstd::arithmetic::power2::pow2(bits as nat),
{
    vstd::arithmetic::power2::lemma2_to64();
}

/// Both channels of a mono clip are the clip itself.
pub proof fn both_channels_are_the_clip<T>(m: Seq<T>, i: int)
    requires
        0 <= i < m.len(),
    ensures
        doubled(m).len() == m.len() + m.len(),
        doubled(m)[2 * i] == m[i],
        doubled(m)[2 * i + 1] == m[i],
{
}

/// A clip has as many whole frames at another rate as fit into its time, and at least one; at its own
/// rate it has as many as before.
pub proof fn clips_keep_their_time(in_frames: nat, in_rate: u32, out_rate: u32)
    requires
        in_rate > 0,
    ensures
        ({
            let n = resampled_len(in_frames, in_rate, out_rate);
            &&& n >= 1
            &&& in_frames * out_rate < (n + 1) * in_rate
            &&& n > 1 ==> n * in_rate <= in_frames * out_rate
            &&& in_rate == out_rate && in_frames >= 1 ==> n == in_frames
        }),
{
    let t = in_frames * (out_rate as nat);
    let r = in_rate as int;
    let q = t as int / r;
    vstd::arithmetic::div_mod::lemma_fundamental_div_mod(t as int, r);
    vstd::arithmetic::div_mod::lemma_mod_bound(t as int, r);
    assert(r * q == q * r) by (nonlinear_arith);
    assert((q + 1) * r == q * r + r) by (nonlinear_arith);
    let n = resampled_len(in_frames, in_rate, out_rate);
    assert((n + 1) * r >= (q + 1) * r) by (nonlinear_arith)
        requires
            n >= q,
            r > 0,
    ;
    if in_rate == out_rate {
        vstd::arithmetic::div_mod::lemma_div_multiples_vanish(in_frames as int, r);
        assert(t == r * in_frames) by (nonlinear_arith)
            requires
                t == in_frames * (out_rate as nat),
                r == out_rate,
        ;
    }
}

/// A frame at another rate is taken from the clip at the time of its middle: between the two frames
/// whose middles lie around that time, and the nearer to one the nearer the time is to its middle.
/// Before the middle of the first frame it is the first, and past the middle of the last the last.
pub proof fn frames_are_taken_at_their_time(of: u64, in_frames: u64, in_rate: u32, out_rate: u32)
    requires
        in_frames > 0,
        out_rate > 0,
    ensures
        ({
            let t = taps(of, in_frames, in_rate, out_rate);
            let x = (of as real + 1real / 2real) * (in_rate as real) / (out_rate as real) - 1real
                / 2real;
            &&& 0 <= t.part < t.whole
            &&& t.first < in_frames && t.second < in_frames
            &&& x < 0real ==> t.first == 0 && t.second == 0
            &&& x >= in_frames as real - 1real ==> t.first == in_frames - 1 && t.second == in_frames
                - 1
            &&& 0real <= x < in_frames as real - 1real ==> {
                &&& t.second == t.first + 1
                &&& t.first as real + t.part as real / (t.whole as real) == x
            }
        }),
{
    let w = 2 * out_rate as int;
    let pos = doubled_position(of, in_rate, out_rate);
    let q = pos / w;
    let m = pos % w;
    vstd::arithmetic::div_mod::lemma_fundamental_div_mod(pos, w);
    vstd::arithmetic::div_mod::lemma_mod_bound(pos, w);
    let o = out_rate as real;
    let y = (of as real + 1real / 2real) * (in_rate as real);
    let x = y / o - 1real / 2real;
    lemma_position(of, in_rate, out_rate);
    assert(pos == q * w + m) by (nonlinear_arith)
        requires
            pos == w * q + m,
    ;
    assert((q * w) as real == q as real * (w as real)) by (nonlinear_arith);
    lemma_place(pos as real, w as real, q as real, m as real);
    assert(x == pos as real / (w as real)) by (nonlinear_arith)
        requires
            x == y / o - 1real / 2real,
            2real * y - o == pos as real,
            w as real == 2real * o,
            o > 0real,
    ;
}

proof fn lemma_position(of: u64, in_rate: u32, out_rate: u32)
    ensures
        doubled_position(of, in_rate, out_rate) as real == 2real * ((of as real + 1real / 2real) * (
        in_rate as real)) - out_rate as real,
{
    let a = 2 * of + 1;
    assert((a * in_rate) as real == a as real * (in_rate as real)) by (nonlinear_arith);
    assert(a as real == 2real * (of as real + 1real / 2real));
    assert(a as real * (in_rate as real) == 2real * ((of as real + 1real / 2real) * (
    in_rate as real))) by (nonlinear_arith)
        requires
            a as real == 2real * (of as real + 1real / 2real),
    ;
}

proof fn lemma_place(p: real, w: real, q: real, m: real)
    requires
        w > 0real,
        p == q * w + m,
        0real <= m < w,
    ensures
        p / w == q + m / w,
        0real <= m / w < 1real,
{
    assert(p / w == q + m / w) by (nonlinear_arith)
        requires
            w > 0real,
            p == q * w + m,
    ;
    assert(0real <= m / w < 1real) by (nonlinear_arith)
        requires
            w > 0real,
            0real <= m < w,
    ;
}

} // verus!
