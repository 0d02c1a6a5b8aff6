use vstd::prelude::*;
use crate::util::{is_digit_char, is_digit_seq, digit_seq_val, lemma_digit_seq_prefix_le};

verus! {

// ------------------------------------------------------------------
// The pitch-bend string: pairs of base64-alphabet characters encode
// 12-bit two's-complement semitone offsets in hundredths; `#`-separated
// run-length segments repeat the previous value.
// ------------------------------------------------------------------

/// The value of a base64-alphabet character; unknown characters count
/// as zero.
pub open spec fn b64_val(c: char) -> int {
    let u = c as u32;
    if 65 <= u <= 90 {  // 'A'..='Z'
        u - 65
    } else if 97 <= u <= 122 {  // 'a'..='z'
        u - 97 + 26
    } else if 48 <= u <= 57 {  // '0'..='9'
        u - 48 + 52
    } else if c == '+' {
        62
    } else if c == '/' {
        63
    } else {
        0
    }
}

/// Two base64 characters as a 12-bit two's-complement value, in
/// hundredths of a semitone.
pub open spec fn pair_val(c: Seq<char>, p: int) -> int {
    let x = b64_val(c[2 * p]) * 64 + b64_val(c[2 * p + 1]);
    if x > 2047 {
        x - 4096
    } else {
        x
    }
}

/// The values encoded by a data segment: two characters per sample, a
/// trailing odd character is dropped.
pub open spec fn decode_pairs(c: Seq<char>) -> Seq<i32> {
    Seq::new((c.len() / 2) as nat, |p: int| pair_val(c, p) as i32)
}

/// Index of the first `#` in `s`, or `s.len()` when there is none.
pub open spec fn hash_index(s: Seq<char>) -> int
    decreases s.len(),
{
    if s.len() == 0 {
        0
    } else if s[0] == '#' {
        0
    } else {
        1 + hash_index(s.drop_first())
    }
}

pub proof fn lemma_hash_index(s: Seq<char>)
    ensures
        0 <= hash_index(s) <= s.len(),
        hash_index(s) < s.len() ==> s[hash_index(s)] == '#',
        forall|j: int| 0 <= j < hash_index(s) ==> s[j] != '#',
    decreases s.len(),
{
    if s.len() > 0 && s[0] != '#' {
        lemma_hash_index(s.drop_first());
        assert forall|j: int| 0 <= j < hash_index(s) implies s[j] != '#' by {
            if j > 0 {
                assert(s.drop_first()[j - 1] != '#');
            }
        }
    }
}

#[via_fn]
proof fn split_hash_decreases(s: Seq<char>) {
    lemma_hash_index(s);
}

/// `s` split on `#`, as `str::split('#')` yields it.
pub open spec fn split_hash(s: Seq<char>) -> Seq<Seq<char>>
    decreases s.len(),
    via split_hash_decreases
{
    let h = hash_index(s);
    if h == s.len() {
        seq![s]
    } else {
        seq![s.take(h)] + split_hash(s.skip(h + 1))
    }
}

/// A run-length segment that parses as a `usize`: an optional `+`,
/// digits, value within `usize` range.
pub open spec fn rle_ok(s: Seq<char>) -> bool {
    &&& s.len() > 0
    &&& s[0] != '-'
    &&& is_digit_seq(if s[0] == '+' { s.drop_first() } else { s })
    &&& rle_val(s) <= usize::MAX
}

pub open spec fn rle_val(s: Seq<char>) -> int {
    digit_seq_val(if s.len() > 0 && s[0] == '+' { s.drop_first() } else { s })
}

/// Folds the `#`-separated segments: even segments decode sample
/// pairs, odd segments repeat the last decoded value.
pub open spec fn decode_chunks(chunks: Seq<Seq<char>>, idx: int, acc: Seq<i32>) -> Seq<i32>
    decreases chunks.len(),
{
    if chunks.len() == 0 {
        acc
    } else {
        let c = chunks[0];
        let rest = chunks.drop_first();
        if idx % 2 == 0 {
            decode_chunks(rest, idx + 1, acc + decode_pairs(c))
        } else if rle_ok(c) && acc.len() > 0 {
            decode_chunks(rest, idx + 1, acc + Seq::new(rle_val(c) as nat, |q: int| acc.last()))
        } else {
            decode_chunks(rest, idx + 1, acc)
        }
    }
}

/// The decoded pitch-bend curve, in hundredths of a semitone.
pub open spec fn decode_bend_spec(s: Seq<char>) -> Seq<i32> {
    decode_chunks(split_hash(s), 0, Seq::empty())
}

// ------------------------------------------------------------------
// Encoding.
// ------------------------------------------------------------------

/// The base64-alphabet character for a value in `[0, 64)`.
pub open spec fn b64_char(d: int) -> char {
    if d < 26 {
        (65 + d) as u8 as char
    } else if d < 52 {
        (97 + d - 26) as u8 as char
    } else if d < 62 {
        (48 + d - 52) as u8 as char
    } else if d == 62 {
        '+'
    } else {
        '/'
    }
}

/// A sample in `[-2048, 2047]` as an unsigned 12-bit value.
pub open spec fn enc12(v: i32) -> int {
    if v < 0 {
        v + 4096
    } else {
        v as int
    }
}

/// The two-characters-per-sample encoding of a curve; it contains no
/// `#`, so it is a single data segment.
pub open spec fn encode_bend_spec(vals: Seq<i32>) -> Seq<char> {
    Seq::new(
        2 * vals.len(),
        |i: int|
            if i % 2 == 0 {
                b64_char(enc12(vals[i / 2]) / 64)
            } else {
                b64_char(enc12(vals[i / 2]) % 64)
            },
    )
}

pub proof fn lemma_b64_char_roundtrip(d: int)
    requires
        0 <= d < 64,
    ensures
        b64_val(b64_char(d)) == d,
        b64_char(d) != '#',
{
}

pub proof fn lemma_no_hash(s: Seq<char>)
    requires
        forall|j: int| 0 <= j < s.len() ==> s[j] != '#',
    ensures
        hash_index(s) == s.len(),
    decreases s.len(),
{
    if s.len() > 0 {
        assert(s[0] != '#');
        lemma_no_hash(s.drop_first());
    }
}

/// Round trip: decoding an encoded curve gives back exactly the
/// samples that were encoded, with no quantization loss, since the
/// encoding holds whole hundredths of a semitone.
pub proof fn lemma_bend_round_trip(vals: Seq<i32>)
    requires
        forall|i: int| 0 <= i < vals.len() ==> -2048 <= #[trigger] vals[i] <= 2047,
    ensures
        decode_bend_spec(encode_bend_spec(vals)) == vals,
{
    let s = encode_bend_spec(vals);
    assert forall|j: int| 0 <= j < s.len() implies s[j] != '#' by {
        let p = j / 2;
        assert(-2048 <= vals[p] <= 2047);
        if j % 2 == 0 {
            lemma_b64_char_roundtrip(enc12(vals[p]) / 64);
        } else {
            lemma_b64_char_roundtrip(enc12(vals[p]) % 64);
        }
    }
    lemma_no_hash(s);
    assert(split_hash(s) =~= seq![s]);
    assert(split_hash(s).drop_first() =~= Seq::<Seq<char>>::empty());
    assert(decode_chunks(Seq::<Seq<char>>::empty(), 1, Seq::<i32>::empty() + decode_pairs(s))
        == Seq::<i32>::empty() + decode_pairs(s));
    assert forall|p: int| 0 <= p < vals.len() implies decode_pairs(s)[p] == vals[p] by {
        assert(-2048 <= vals[p] <= 2047);
        let x = enc12(vals[p]);
        lemma_b64_char_roundtrip(x / 64);
        lemma_b64_char_roundtrip(x % 64);
        assert(s[2 * p] == b64_char(x / 64));
        assert(s[2 * p + 1] == b64_char(x % 64));
        assert(b64_val(s[2 * p]) * 64 + b64_val(s[2 * p + 1]) == x);
        assert(pair_val(s, p) == vals[p]);
    }
    assert(decode_pairs(s) =~= vals);
    assert(decode_bend_spec(s) =~= vals);
}

fn b64_char_exec(d: i32) -> (r: char)
    requires
        0 <= d < 64,
    ensures
        r == b64_char(d as int),
{
    if d < 26 {
        (65 + d as u8) as char
    } else if d < 52 {
        (97 + (d - 26) as u8) as char
    } else if d < 62 {
        (48 + (d - 52) as u8) as char
    } else if d == 62 {
        '+'
    } else {
        '/'
    }
}

/// Encodes a curve of hundredths of a semitone as one data segment,
/// two base64 characters per sample. Samples must fit the 12-bit
/// two's-complement range of the format.
#[verifier::loop_isolation(false)]
pub fn encode_pitchbend(values: &Vec<i32>) -> (r: Vec<char>)
    requires
        forall|i: int| 0 <= i < values@.len() ==> -2048 <= #[trigger] values@[i] <= 2047,
    ensures
        r@ == encode_bend_spec(values@),
{
    let ghost target = encode_bend_spec(values@);
    let mut r: Vec<char> = Vec::new();
    let mut i: usize = 0;
    while i < values.len()
        invariant
            i <= values@.len(),
            r@ == target.take(2 * i as int),
        decreases values@.len() - i,
    {
        let v = values[i];
        let x = if v < 0 { v + 4096 } else { v };
        let c0 = b64_char_exec(x / 64);
        let c1 = b64_char_exec(x % 64);
        r.push(c0);
        r.push(c1);
        proof {
            assert(enc12(values@[i as int]) == x);
            assert(target[2 * i as int] == c0);
            assert(target[2 * i + 1] == c1);
            assert(r@ =~= target.take(2 * (i + 1)));
        }
        i += 1;
    }
    proof {
        assert(target.take(2 * values@.len() as int) =~= target);
    }
    r
}

// ------------------------------------------------------------------
// Executable decoder.
// ------------------------------------------------------------------

fn b64_val_exec(c: char) -> (r: i32)
    ensures
        r == b64_val(c),
        0 <= r < 64,
{
    let u = c as u32;
    if 65 <= u && u <= 90 {
        (u - 65) as i32
    } else if 97 <= u && u <= 122 {
        (u - 97 + 26) as i32
    } else if 48 <= u && u <= 57 {
        (u - 48 + 52) as i32
    } else if c == '+' {
        62
    } else if c == '/' {
        63
    } else {
        0
    }
}

/// Parses a run-length segment as `str::parse::<usize>` would.
#[verifier::loop_isolation(false)]
fn parse_rle(v: &Vec<char>, lo: usize, hi: usize) -> (r: Option<usize>)
    requires
        lo <= hi <= v@.len(),
    ensures
        ({
            let t = v@.subrange(lo as int, hi as int);
            match r {
                Some(x) => rle_ok(t) && x == rle_val(t),
                None => !rle_ok(t),
            }
        }),
{
    let ghost t = v@.subrange(lo as int, hi as int);
    if lo == hi {
        return None;
    }
    if v[lo] == '-' {
        return None;
    }
    let start = if v[lo] == '+' { lo + 1 } else { lo };
    let ghost body = if t[0] == '+' { t.drop_first() } else { t };
    proof {
        assert(body =~= v@.subrange(start as int, hi as int));
    }
    if start == hi {
        return None;
    }
    let mut i = start;
    let mut m: u128 = 0;
    while i < hi
        invariant
            start <= i <= hi <= v@.len(),
            forall|j: int| 0 <= j < i - start ==> is_digit_char(body[j]),
            m == digit_seq_val(body.take(i - start)),
            m <= usize::MAX as u128,
        decreases hi - i,
    {
        let c = v[i];
        let d = c as u32;
        if d < 48 || d > 57 {
            proof {
                assert(body[i - start] == c);
            }
            return None;
        }
        proof {
            assert(body.take(i - start + 1).drop_last() =~= body.take(i - start));
        }
        m = m * 10 + (d - 48) as u128;
        if m > usize::MAX as u128 {
            proof {
                if is_digit_seq(body) {
                    lemma_digit_seq_prefix_le(body, i - start + 1);
                }
            }
            return None;
        }
        i += 1;
    }
    proof {
        assert(body.take(hi - start) =~= body);
    }
    Some(m as usize)
}

/// Decodes a pitch-bend string into hundredths of a semitone: even
/// `#`-segments hold two base64 characters per sample (12-bit
/// two's-complement), odd segments are decimal repeat counts for the
/// last value.
#[verifier::loop_isolation(false)]
#[verifier::rlimit(100)]
pub fn decode_pitchbend(s: &str) -> (r: Vec<i32>)
    ensures
        r@ == decode_bend_spec(s@),
        forall|q: int| 0 <= q < r@.len() ==> -2048 <= #[trigger] r@[q] <= 2047,
{
    let v = crate::util::chars_of(s);
    let n = v.len();
    let mut res: Vec<i32> = Vec::new();
    let mut pos: usize = 0;
    let mut even = true;
    let ghost all = v@;
    let ghost mut gidx: int = 0;
    proof {
        assert(v@.skip(0) =~= v@);
    }
    let mut more = true;
    while more
        invariant
            pos <= n,
            n == v@.len(),
            even <==> (gidx % 2 == 0),
            gidx >= 0,
            more ==> decode_bend_spec(all) == decode_chunks(
                split_hash(v@.skip(pos as int)),
                gidx,
                res@,
            ),
            !more ==> decode_bend_spec(all) == res@,
            forall|q: int| 0 <= q < res@.len() ==> -2048 <= #[trigger] res@[q] <= 2047,
        decreases n - pos + if more { 1int } else { 0int },
    {
        let ghost cur = v@.skip(pos as int);
        // Find the end of the current segment.
        let mut e = pos;
        while e < n && !(v[e] == '#')
            invariant
                pos <= e <= n,
                hash_index(v@.skip(pos as int)) == (e - pos) + hash_index(v@.skip(e as int)),
                forall|j: int| pos <= j < e ==> v@[j] != '#',
            decreases n - e,
        {
            proof {
                assert(v@.skip(e as int)[0] == v@[e as int]);
                assert(v@.skip(e as int).drop_first() =~= v@.skip(e + 1));
            }
            e += 1;
        }
        proof {
            if e < n {
                assert(v@.skip(e as int)[0] == v@[e as int]);
            }
            assert(hash_index(cur) == e - pos);
            assert(cur.take(e - pos) =~= v@.subrange(pos as int, e as int));
        }
        let ghost chunk = v@.subrange(pos as int, e as int);

        if even {
            // Data segment: decode base64 pairs.
            let pairs = (e - pos) / 2;
            let ghost before = res@;
            let mut p: usize = 0;
            while p < pairs
                invariant
                    0 <= p <= pairs,
                    pairs == (e - pos) / 2,
                    pos <= e <= n,
                    n == v@.len(),
                    chunk == v@.subrange(pos as int, e as int),
                    res@ == before + decode_pairs(chunk).take(p as int),
                    forall|q: int| 0 <= q < res@.len() ==> -2048 <= #[trigger] res@[q] <= 2047,
                decreases pairs - p,
            {
                let a = b64_val_exec(v[pos + 2 * p]);
                let b = b64_val_exec(v[pos + 2 * p + 1]);
                let x = a * 64 + b;
                let val = if x > 2047 { x - 4096 } else { x };
                proof {
                    assert(chunk[2 * p as int] == v@[pos + 2 * p]);
                    assert(chunk[2 * p + 1] == v@[pos + 2 * p + 1]);
                    assert(pair_val(chunk, p as int) == val);
                    assert(decode_pairs(chunk)[p as int] == val as i32);
                }
                res.push(val);
                proof {
                    assert(res@ =~= before + decode_pairs(chunk).take(p + 1));
                }
                p += 1;
            }
            proof {
                assert(decode_pairs(chunk).take(pairs as int) =~= decode_pairs(chunk));
            }
        } else {
            // Run-length segment.
            match parse_rle(&v, pos, e) {
                Some(count) => {
                    if res.len() > 0 {
                        let last = res[res.len() - 1];
                        let ghost before = res@;
                        let ghost rep = Seq::new(rle_val(chunk) as nat, |q: int| before.last());
                        let mut cdone: usize = 0;
                        while cdone < count
                            invariant
                                0 <= cdone <= count,
                                count == rle_val(chunk),
                                last == before.last(),
                                before.len() > 0,
                                rep == Seq::new(rle_val(chunk) as nat, |q: int| before.last()),
                                res@ == before + rep.take(cdone as int),
                                forall|q: int|
                                    0 <= q < before.len() ==> -2048 <= #[trigger] before[q]
                                        <= 2047,
                            decreases count - cdone,
                        {
                            res.push(last);
                            proof {
                                assert(res@ =~= before + rep.take(cdone + 1));
                            }
                            cdone += 1;
                        }
                        proof {
                            assert(rep.take(count as int) =~= rep);
                            assert forall|q: int| 0 <= q < res@.len() implies -2048
                                <= #[trigger] res@[q] <= 2047 by {
                                if q >= before.len() {
                                    assert(res@[q] == before.last());
                                }
                            }
                        }
                    }
                },
                None => {},
            }
        }

        proof {
            if e < n {
                assert(cur.skip((e - pos) + 1) =~= v@.skip(e + 1));
            }
        }
        if e == n {
            proof {
                assert(split_hash(cur) =~= seq![chunk]);
                assert(split_hash(cur).drop_first() =~= Seq::<Seq<char>>::empty());
                assert(split_hash(cur)[0] == chunk);
                assert(decode_chunks(Seq::<Seq<char>>::empty(), gidx + 1, res@) == res@);
            }
            more = false;
        } else {
            proof {
                assert(split_hash(cur).drop_first() =~= split_hash(v@.skip(e + 1)));
                assert(split_hash(cur)[0] == chunk);
            }
            pos = e + 1;
            even = !even;
            proof {
                gidx = gidx + 1;
            }
        }
    }
    res
}

} // verus!
