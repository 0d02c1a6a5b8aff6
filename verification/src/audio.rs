use vstd::prelude::*;

verus! {

// ------------------------------------------------------------------
// The output container: single-channel 16-bit little-endian PCM with
// a minimal standard header. Decoding arbitrary input containers is
// I/O and stays outside the library; the byte layout written here is
// the library's own.
// ------------------------------------------------------------------

/// The little-endian bytes of a 16-bit value.
pub open spec fn le16(x: int) -> Seq<u8> {
    seq![(x % 256) as u8, ((x / 256) % 256) as u8]
}

/// The little-endian bytes of a 32-bit value.
pub open spec fn le32(x: int) -> Seq<u8> {
    seq![
        (x % 256) as u8,
        ((x / 256) % 256) as u8,
        ((x / 65536) % 256) as u8,
        ((x / 16777216) % 256) as u8,
    ]
}

/// Byte `i` of the sample payload: samples are two bytes each, low
/// byte first, two's complement.
pub open spec fn sample_byte(s: Seq<i16>, i: int) -> u8 {
    let u = s[i / 2] as u16;
    if i % 2 == 0 {
        (u % 256) as u8
    } else {
        (u / 256) as u8
    }
}

/// The whole container: RIFF/WAVE header, a 16-byte PCM `fmt ` chunk
/// (1 channel, 16 bits), and the data chunk. An empty render carries
/// one silent sample frame.
pub open spec fn wav_bytes_spec(fs: int, samples: Seq<i16>) -> Seq<u8> {
    let dsz = 2 * samples.len() as int;
    seq![0x52u8, 0x49u8, 0x46u8, 0x46u8] + le32(36 + dsz) + seq![0x57u8, 0x41u8, 0x56u8, 0x45u8]
        + seq![0x66u8, 0x6du8, 0x74u8, 0x20u8] + le32(16) + le16(1) + le16(1) + le32(fs) + le32(
        2 * fs,
    ) + le16(2) + le16(16) + seq![0x64u8, 0x61u8, 0x74u8, 0x61u8] + le32(dsz as int) + (
    if samples.len() == 0 {
        seq![0u8, 0u8]
    } else {
        Seq::new(2 * samples.len(), |i: int| sample_byte(samples, i))
    })
}

/// Appends the little-endian bytes of a 32-bit value.
fn push_le32(v: &mut Vec<u8>, x: u32)
    ensures
        final(v)@ == old(v)@ + le32(x as int),
{
    v.push((x % 256) as u8);
    v.push(((x / 256) % 256) as u8);
    v.push(((x / 65536) % 256) as u8);
    v.push(((x / 16777216) % 256) as u8);
    proof {
        assert(v@ =~= old(v)@ + le32(x as int));
    }
}

/// Appends the little-endian bytes of a 16-bit value.
fn push_le16(v: &mut Vec<u8>, x: u16)
    ensures
        final(v)@ == old(v)@ + le16(x as int),
{
    v.push((x % 256) as u8);
    v.push((x / 256) as u8);
    proof {
        assert(v@ =~= old(v)@ + le16(x as int));
    }
}

/// Serializes a rendered signal as a single-channel 16-bit PCM file.
/// The container format caps the payload at 32 bits of size.
#[verifier::loop_isolation(false)]
#[verifier::rlimit(100)]
pub fn wav_bytes(sample_rate: u32, samples: &Vec<i16>) -> (r: Vec<u8>)
    requires
        sample_rate <= 0x7fff_ffff,
        2 * samples@.len() + 36 <= 0xffff_ffff,
    ensures
        r@ == wav_bytes_spec(sample_rate as int, samples@),
{
    let ghost target = wav_bytes_spec(sample_rate as int, samples@);
    let n = samples.len();
    let data_size: u32 = (n as u32) * 2;
    let mut v: Vec<u8> = Vec::new();
    v.push(0x52);
    v.push(0x49);
    v.push(0x46);
    v.push(0x46);
    push_le32(&mut v, 36 + data_size);
    v.push(0x57);
    v.push(0x41);
    v.push(0x56);
    v.push(0x45);
    v.push(0x66);
    v.push(0x6d);
    v.push(0x74);
    v.push(0x20);
    push_le32(&mut v, 16);
    push_le16(&mut v, 1);
    push_le16(&mut v, 1);
    push_le32(&mut v, sample_rate);
    push_le32(&mut v, 2 * sample_rate);
    push_le16(&mut v, 2);
    push_le16(&mut v, 16);
    v.push(0x64);
    v.push(0x61);
    v.push(0x74);
    v.push(0x61);
    push_le32(&mut v, data_size);
    proof {
        assert(v@ =~= target.take(44));
    }
    if n == 0 {
        v.push(0);
        v.push(0);
        proof {
            assert(v@ =~= target);
        }
        return v;
    }
    let mut i: usize = 0;
    while i < n
        invariant
            i <= n,
            n == samples@.len(),
            n > 0,
            v@ == target.take(44 + 2 * i as int),
        decreases n - i,
    {
        let u = samples[i] as u16;
        v.push((u % 256) as u8);
        v.push((u / 256) as u8);
        proof {
            assert(v@ =~= target.take(44 + 2 * (i + 1)));
        }
        i += 1;
    }
    proof {
        assert(v@ =~= target);
    }
    v
}

} // verus!
