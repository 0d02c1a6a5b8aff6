use vstd::prelude::*;
use vstd::string::*;

verus! {

// ------------------------------------------------------------------
// Character classes and numeric grammars, as specification functions.
// ------------------------------------------------------------------

pub open spec fn is_space_char(c: char) -> bool {
    c == ' ' || c == '\t' || c == '\n' || c == '\r'
}

pub open spec fn is_digit_char(c: char) -> bool {
    48 <= c as u32 <= 57
}

pub open spec fn digit_val(c: char) -> int {
    c as u32 - 48
}

/// The characters of `s` with leading space characters removed.
pub open spec fn ltrim(s: Seq<char>) -> Seq<char>
    decreases s.len(),
{
    if s.len() > 0 && is_space_char(s[0]) {
        ltrim(s.drop_first())
    } else {
        s
    }
}

/// The characters of `s` with trailing space characters removed.
pub open spec fn rtrim(s: Seq<char>) -> Seq<char>
    decreases s.len(),
{
    if s.len() > 0 && is_space_char(s.last()) {
        rtrim(s.drop_last())
    } else {
        s
    }
}

pub open spec fn trim(s: Seq<char>) -> Seq<char> {
    rtrim(ltrim(s))
}

/// One or more decimal digits.
pub open spec fn is_digit_seq(s: Seq<char>) -> bool {
    s.len() > 0 && forall|i: int| 0 <= i < s.len() ==> is_digit_char(s[i])
}

/// The value of a digit string, most significant digit first.
pub open spec fn digit_seq_val(s: Seq<char>) -> int
    decreases s.len(),
{
    if s.len() == 0 {
        0
    } else {
        10 * digit_seq_val(s.drop_last()) + digit_val(s.last())
    }
}

pub open spec fn has_sign(s: Seq<char>) -> bool {
    s.len() > 0 && (s[0] == '+' || s[0] == '-')
}

/// The digits of an optionally signed integer literal.
pub open spec fn int_body(s: Seq<char>) -> Seq<char> {
    if has_sign(s) {
        s.drop_first()
    } else {
        s
    }
}

/// An optionally signed decimal integer literal.
pub open spec fn is_int_seq(s: Seq<char>) -> bool {
    is_digit_seq(int_body(s))
}

pub open spec fn int_seq_val(s: Seq<char>) -> int {
    if s.len() > 0 && s[0] == '-' {
        -digit_seq_val(int_body(s))
    } else {
        digit_seq_val(int_body(s))
    }
}

/// An integer literal whose value fits in an `i32`, which is exactly
/// what `str::parse::<i32>` accepts.
pub open spec fn is_i32_seq(s: Seq<char>) -> bool {
    is_int_seq(s) && i32::MIN <= int_seq_val(s) <= i32::MAX
}

// ------------------------------------------------------------------
// Supporting lemmas.
// ------------------------------------------------------------------

pub proof fn lemma_digit_seq_val_nonneg(s: Seq<char>)
    requires
        forall|i: int| 0 <= i < s.len() ==> is_digit_char(s[i]),
    ensures
        digit_seq_val(s) >= 0,
    decreases s.len(),
{
    if s.len() > 0 {
        lemma_digit_seq_val_nonneg(s.drop_last());
    }
}

/// Extending a digit string to the right never decreases its value.
pub proof fn lemma_digit_seq_prefix_le(s: Seq<char>, k: int)
    requires
        forall|i: int| 0 <= i < s.len() ==> is_digit_char(s[i]),
        0 <= k <= s.len(),
    ensures
        digit_seq_val(s.take(k)) <= digit_seq_val(s),
    decreases s.len() - k,
{
    if k < s.len() {
        lemma_digit_seq_prefix_le(s, k + 1);
        let t = s.take(k + 1);
        assert(t.drop_last() =~= s.take(k));
        lemma_digit_seq_val_nonneg(s.take(k));
        assert(digit_seq_val(t) == 10 * digit_seq_val(s.take(k)) + digit_val(t.last()));
    } else {
        assert(s.take(k) =~= s);
    }
}

// ------------------------------------------------------------------
// Executable helpers.
// ------------------------------------------------------------------

/// The characters of `s`, one vector entry per character.
pub fn chars_of(s: &str) -> (v: Vec<char>)
    ensures
        v@ == s@,
{
    let n = s.unicode_len();
    let mut v: Vec<char> = Vec::new();
    let mut i: usize = 0;
    while i < n
        invariant
            i <= n,
            n == s@.len(),
            v@ == s@.subrange(0, i as int),
        decreases n - i,
    {
        let c = s.get_char(i);
        v.push(c);
        proof {
            assert(v@ =~= s@.subrange(0, i + 1));
        }
        i += 1;
    }
    proof {
        assert(v@ =~= s@);
    }
    v
}

fn is_space_exec(c: char) -> (r: bool)
    ensures
        r == is_space_char(c),
{
    c == ' ' || c == '\t' || c == '\n' || c == '\r'
}

fn is_digit_exec(c: char) -> (r: bool)
    ensures
        r == is_digit_char(c),
{
    let d = c as u32;
    48 <= d && d <= 57
}

/// Finds the bounds of the trimmed middle of `v`:
/// `v@.subrange(lo, hi)` is `trim(v@)`.
#[verifier::loop_isolation(false)]
pub fn trim_range(v: &Vec<char>) -> (r: (usize, usize))
    ensures
        r.0 <= r.1 <= v@.len(),
        trim(v@) == v@.subrange(r.0 as int, r.1 as int),
{
    let n = v.len();
    proof {
        assert(v@.subrange(0, n as int) =~= v@);
    }
    let mut lo: usize = 0;
    while lo < n && is_space_exec(v[lo])
        invariant
            lo <= n,
            n == v@.len(),
            ltrim(v@) == ltrim(v@.subrange(lo as int, n as int)),
        decreases n - lo,
    {
        proof {
            let cur = v@.subrange(lo as int, n as int);
            assert(cur.drop_first() =~= v@.subrange(lo + 1, n as int));
        }
        lo += 1;
    }
    proof {
        let cur = v@.subrange(lo as int, n as int);
        if lo < n {
            assert(!is_space_char(cur[0]));
        }
        assert(ltrim(v@) == cur);
    }
    let mut hi: usize = n;
    while hi > lo && is_space_exec(v[hi - 1])
        invariant
            lo <= hi <= n,
            n == v@.len(),
            ltrim(v@) == v@.subrange(lo as int, n as int),
            rtrim(v@.subrange(lo as int, n as int)) == rtrim(v@.subrange(lo as int, hi as int)),
        decreases hi,
    {
        proof {
            let cur = v@.subrange(lo as int, hi as int);
            assert(cur.last() == v@[hi - 1]);
            assert(cur.drop_last() =~= v@.subrange(lo as int, hi - 1));
        }
        hi -= 1;
    }
    proof {
        let cur = v@.subrange(lo as int, hi as int);
        if hi > lo {
            assert(!is_space_char(cur.last()));
        }
        assert(trim(v@) == cur);
    }
    (lo, hi)
}

/// Parses `v[lo..hi]` exactly as `str::parse::<i32>` would: an optional
/// sign, then one or more digits, with the value in `i32` range.
#[verifier::loop_isolation(false)]
pub fn parse_i32_range(v: &Vec<char>, lo: usize, hi: usize) -> (r: Option<i32>)
    requires
        lo <= hi <= v@.len(),
    ensures
        ({
            let t = v@.subrange(lo as int, hi as int);
            match r {
                Some(x) => is_i32_seq(t) && x == int_seq_val(t),
                None => !is_i32_seq(t),
            }
        }),
{
    let ghost t = v@.subrange(lo as int, hi as int);
    if lo == hi {
        return None;
    }
    let c0 = v[lo];
    let neg = c0 == '-';
    let start = if c0 == '-' || c0 == '+' { lo + 1 } else { lo };
    let ghost body = int_body(t);
    proof {
        assert(body =~= v@.subrange(start as int, hi as int));
    }
    if start == hi {
        return None;
    }
    let mut i = start;
    let mut m: u64 = 0;
    while i < hi
        invariant
            start <= i <= hi <= v@.len(),
            body == v@.subrange(start as int, hi as int),
            forall|j: int| 0 <= j < i - start ==> is_digit_char(body[j]),
            m == digit_seq_val(body.take(i - start)),
            m <= 0x8000_0000u64,
        decreases hi - i,
    {
        let c = v[i];
        let d = c as u32;
        if d < 48 || d > 57 {
            proof {
                assert(body[i - start] == c);
                assert(!is_digit_char(c));
            }
            return None;
        }
        proof {
            assert(body.take(i - start + 1).drop_last() =~= body.take(i - start));
        }
        m = m * 10 + (d - 48) as u64;
        if m > 0x8000_0000u64 {
            proof {
                if is_digit_seq(body) {
                    lemma_digit_seq_prefix_le(body, i - start + 1);
                }
            }
            return None;
        }
        i += 1;
    }
    proof {
        assert(body.take(hi - start) =~= body);
        assert(is_digit_seq(body));
    }
    if neg {
        Some((-(m as i64)) as i32)
    } else {
        if m > 0x7fff_ffffu64 {
            return None;
        }
        Some(m as i32)
    }
}

// ------------------------------------------------------------------
// Pitch-name parsing.
// ------------------------------------------------------------------

/// The semitone of a note letter within an octave, or -1 when the
/// character is not a note letter.
pub open spec fn note_semitone(c: char) -> int {
    if c == 'C' || c == 'c' {
        0
    } else if c == 'D' || c == 'd' {
        2
    } else if c == 'E' || c == 'e' {
        4
    } else if c == 'F' || c == 'f' {
        5
    } else if c == 'G' || c == 'g' {
        7
    } else if c == 'A' || c == 'a' {
        9
    } else if c == 'B' || c == 'b' {
        11
    } else {
        -1
    }
}

pub open spec fn is_accidental(c: char) -> bool {
    c == '#' || c == 'b' || c == 'B'
}

pub open spec fn accidental_delta(c: char) -> int {
    if c == '#' {
        1
    } else {
        -1
    }
}

/// The octave digits of a note name: everything after the letter and
/// the optional accidental.
pub open spec fn note_octave_part(t: Seq<char>) -> Seq<char> {
    let rest = t.drop_first();
    if rest.len() > 0 && is_accidental(rest[0]) {
        rest.drop_first()
    } else {
        rest
    }
}

/// A note name: a note letter, an optional `#`/`b`/`B` accidental, then
/// an octave number that `str::parse::<i32>` accepts.
pub open spec fn pitch_note_valid(t: Seq<char>) -> bool {
    t.len() > 0 && note_semitone(t[0]) >= 0 && is_i32_seq(note_octave_part(t))
}

/// The MIDI number of a note name: `(octave + 1) * 12` plus the note's
/// semitone, shifted by the accidental.
pub open spec fn pitch_note_midi(t: Seq<char>) -> int {
    let rest = t.drop_first();
    let delta: int = if rest.len() > 0 && is_accidental(rest[0]) {
        accidental_delta(rest[0])
    } else {
        0
    };
    (int_seq_val(note_octave_part(t)) + 1) * 12 + note_semitone(t[0]) + delta
}

fn note_semitone_exec(c: char) -> (r: i32)
    ensures
        r == note_semitone(c),
{
    match c {
        'C' | 'c' => 0,
        'D' | 'd' => 2,
        'E' | 'e' => 4,
        'F' | 'f' => 5,
        'G' | 'g' => 7,
        'A' | 'a' => 9,
        'B' | 'b' => 11,
        _ => -1,
    }
}

/// Parses a pitch argument: either a plain MIDI note number, or a note
/// name such as `C#4` (letter, optional accidental, signed octave).
/// The input is trimmed first; an empty string is rejected.
pub fn pitch_parser(s: &str) -> (r: Result<i32, String>)
    ensures
        ({
            let t = trim(s@);
            if s@.len() == 0 {
                r is Err
            } else if is_i32_seq(t) {
                r is Ok && r->Ok_0 == int_seq_val(t)
            } else if pitch_note_valid(t) && i32::MIN <= pitch_note_midi(t) <= i32::MAX {
                r is Ok && r->Ok_0 == pitch_note_midi(t)
            } else {
                r is Err
            }
        }),
{
    if s.is_empty() {
        return Err(String::from_str("Pitch string cannot be empty"));
    }
    let v = chars_of(s);
    let (lo, hi) = trim_range(&v);
    let ghost t = trim(s@);

    if let Some(num) = parse_i32_range(&v, lo, hi) {
        return Ok(num);
    }

    if lo == hi {
        return Err(String::from_str("Invalid pitch format"));
    }
    let note = note_semitone_exec(v[lo]);
    if note < 0 {
        return Err(String::from_str("Invalid note"));
    }

    let mut oct_lo = lo + 1;
    let mut delta: i32 = 0;
    if oct_lo < hi && (v[oct_lo] == '#' || v[oct_lo] == 'b' || v[oct_lo] == 'B') {
        delta = if v[oct_lo] == '#' { 1 } else { -1 };
        oct_lo += 1;
    }
    proof {
        assert(t.drop_first() =~= v@.subrange(lo + 1, hi as int));
        if lo + 1 < hi && is_accidental(t.drop_first()[0]) {
            assert(t.drop_first().drop_first() =~= v@.subrange(lo + 2, hi as int));
        }
        assert(note_octave_part(t) =~= v@.subrange(oct_lo as int, hi as int));
    }

    if oct_lo == hi {
        return Err(String::from_str("Octave number required"));
    }
    let octave = match parse_i32_range(&v, oct_lo, hi) {
        Some(x) => x,
        None => {
            return Err(String::from_str("Invalid octave"));
        },
    };

    let midi = (octave as i64 + 1) * 12 + note as i64 + delta as i64;
    if midi < i32::MIN as i64 || midi > i32::MAX as i64 {
        return Err(String::from_str("Invalid octave"));
    }
    Ok(midi as i32)
}

// ------------------------------------------------------------------
// Decimal literals, scaled to a fixed number of fractional digits.
// ------------------------------------------------------------------

pub open spec fn all_digits(s: Seq<char>) -> bool {
    forall|i: int| 0 <= i < s.len() ==> is_digit_char(s[i])
}

/// Index of the first `.` in `s`, or `s.len()` when there is none.
pub open spec fn dot_index(s: Seq<char>) -> int
    decreases s.len(),
{
    if s.len() == 0 {
        0
    } else if s[0] == '.' {
        0
    } else {
        1 + dot_index(s.drop_first())
    }
}

pub proof fn lemma_dot_index(s: Seq<char>)
    ensures
        0 <= dot_index(s) <= s.len(),
        dot_index(s) < s.len() ==> s[dot_index(s)] == '.',
        forall|j: int| 0 <= j < dot_index(s) ==> s[j] != '.',
    decreases s.len(),
{
    if s.len() > 0 && s[0] != '.' {
        lemma_dot_index(s.drop_first());
        assert forall|j: int| 0 <= j < dot_index(s) implies s[j] != '.' by {
            if j > 0 {
                assert(s.drop_first()[j - 1] != '.');
            }
        }
    }
}

pub open spec fn dec_int_part(s: Seq<char>) -> Seq<char> {
    s.take(dot_index(s))
}

pub open spec fn dec_frac_part(s: Seq<char>) -> Seq<char> {
    if dot_index(s) == s.len() {
        Seq::empty()
    } else {
        s.skip(dot_index(s) + 1)
    }
}

/// An unsigned decimal literal: digits, an optional dot, more digits,
/// with at least one digit in total.
pub open spec fn is_unsigned_dec(s: Seq<char>) -> bool {
    &&& all_digits(dec_int_part(s))
    &&& all_digits(dec_frac_part(s))
    &&& dec_int_part(s).len() + dec_frac_part(s).len() > 0
}

pub open spec fn pow10(k: nat) -> int
    decreases k,
{
    if k == 0 {
        1
    } else {
        10 * pow10((k - 1) as nat)
    }
}

/// The first `k` fractional digits as an integer, padded with zeros on
/// the right when fewer digits are present; further digits truncate.
pub open spec fn frac_scaled(f: Seq<char>, k: nat) -> int {
    if f.len() >= k {
        digit_seq_val(f.take(k as int))
    } else {
        digit_seq_val(f) * pow10((k - f.len()) as nat)
    }
}

/// The value of an unsigned decimal literal in units of `10^-k`,
/// truncated beyond `k` fractional digits.
pub open spec fn unsigned_dec_scaled(s: Seq<char>, k: nat) -> int {
    digit_seq_val(dec_int_part(s)) * pow10(k) + frac_scaled(dec_frac_part(s), k)
}

pub open spec fn sign_body(s: Seq<char>) -> Seq<char> {
    if has_sign(s) {
        s.drop_first()
    } else {
        s
    }
}

pub open spec fn is_signed_dec(s: Seq<char>) -> bool {
    is_unsigned_dec(sign_body(s))
}

pub open spec fn signed_dec_scaled(s: Seq<char>, k: nat) -> int {
    if s.len() > 0 && s[0] == '-' {
        -unsigned_dec_scaled(sign_body(s), k)
    } else {
        unsigned_dec_scaled(sign_body(s), k)
    }
}

/// Largest scaled decimal value the parsers accept.
pub const DEC_MAX: u64 = 1_000_000_000_000;

pub open spec fn dec_max_spec() -> int {
    DEC_MAX as int
}

/// Parses `v[lo..hi]` as an optionally signed decimal literal, scaled
/// to `k` fractional digits (`k` is 2 or 3), truncating further digits.
/// Values whose magnitude exceeds `DEC_MAX` are rejected.
#[verifier::loop_isolation(false)]
#[verifier::rlimit(100)]
pub fn parse_dec_scaled(v: &Vec<char>, lo: usize, hi: usize, k: u32) -> (r: Option<i64>)
    requires
        lo <= hi <= v@.len(),
        k == 2 || k == 3,
    ensures
        ({
            let t = v@.subrange(lo as int, hi as int);
            match r {
                Some(x) => is_signed_dec(t)
                    && -dec_max_spec() <= signed_dec_scaled(t, k as nat) <= dec_max_spec()
                    && x == signed_dec_scaled(t, k as nat),
                None => !is_signed_dec(t)
                    || !(-dec_max_spec() <= signed_dec_scaled(t, k as nat) <= dec_max_spec()),
            }
        }),
{
    let ghost t = v@.subrange(lo as int, hi as int);
    if lo == hi {
        return None;
    }
    let c0 = v[lo];
    let neg = c0 == '-';
    let start = if c0 == '-' || c0 == '+' { lo + 1 } else { lo };
    let ghost body = sign_body(t);
    proof {
        assert(body =~= v@.subrange(start as int, hi as int));
        lemma_dot_index(body);
    }
    let scale: u64 = if k == 2 { 100 } else { 1000 };

    // Integer part: digits up to the first dot or the end.
    let mut i = start;
    let mut m: u64 = 0;
    while i < hi && is_digit_exec(v[i])
        invariant
            start <= i <= hi <= v@.len(),
            forall|j: int| 0 <= j < i - start ==> is_digit_char(body[j]),
            m == digit_seq_val(body.take(i - start)),
            m <= DEC_MAX,
        decreases hi - i,
    {
        let c = v[i];
        let d = c as u32;
        proof {
            assert(body[i - start] == c);
            assert(body.take(i - start + 1).drop_last() =~= body.take(i - start));
        }
        m = m * 10 + (d - 48) as u64;
        if m > DEC_MAX {
            proof {
                lemma_reject_big_int_part(body, i - start + 1, k as nat);
            }
            return None;
        }
        i += 1;
    }
    proof {
        if i < hi {
            assert(body[i - start] == v@[i as int]);
        }
    }
    let int_digits = i - start;
    proof {
        if i < hi && body[i - start] != '.' {
            // A stray character: the integer part of `body` extends past
            // `i` and holds a non-digit, so `body` is not a decimal.
            let d = dot_index(body);
            if d <= i - start {
                assert(body[d] == '.');
                if d < i - start {
                    assert(is_digit_char(body[d]));
                    assert(('.' as u32) < 48);
                }
            } else {
                assert(dec_int_part(body)[i - start] == body[i - start]);
                assert(!all_digits(dec_int_part(body)));
            }
        }
    }
    if i < hi && !(v[i] == '.') {
        return None;
    }
    proof {
        lemma_first_dot(body, int_digits as int);
        assert(dec_int_part(body) =~= body.take(int_digits as int));
    }

    // Fractional part.
    let mut f: u64 = 0;
    if i < hi {
        // Skip the dot.
        i += 1;
        let frac_start = i;
        proof {
            assert(dec_frac_part(body) =~= v@.subrange(frac_start as int, hi as int));
        }
        match parse_frac_scaled(v, frac_start, hi, k) {
            Some(fv) => {
                f = fv;
            },
            None => {
                return None;
            },
        }
    } else {
        proof {
            assert(dot_index(body) == int_digits as int);
            assert(dec_frac_part(body) =~= Seq::<char>::empty());
            lemma_pow10_pos(k as nat);
        }
    }

    // Reject when no digit was seen on either side of the dot.
    let has_int = int_digits > 0;
    let has_frac = if start + int_digits < hi { hi - (start + int_digits) > 1 } else { false };
    if !has_int && !has_frac {
        return None;
    }

    proof {
        lemma_pow10_small();
        assert(scale == pow10(k as nat));
        assert(m == digit_seq_val(dec_int_part(body)));
        lemma_digit_seq_val_nonneg(dec_int_part(body));
        lemma_frac_nonneg(dec_frac_part(body), k as nat);
        assert(f == frac_scaled(dec_frac_part(body), k as nat));
        assert(is_unsigned_dec(body));
        assert((m as int) * (scale as int) <= 1_000_000_000_000_000int) by (nonlinear_arith)
            requires
                m <= 1_000_000_000_000u64,
                1 <= scale <= 1000u64,
        ;
    }
    let ms = m * scale;
    proof {
        assert(unsigned_dec_scaled(body, k as nat) == ms + f);
    }
    let total = ms + f;
    if total > DEC_MAX {
        return None;
    }
    if neg {
        Some(-(total as i64))
    } else {
        Some(total as i64)
    }
}

/// Parses `v[frac_start..hi]` as the fractional digits of a decimal,
/// scaled to `k` digits: truncated beyond them, zero-padded below
/// them.
#[verifier::loop_isolation(false)]
#[verifier::rlimit(60)]
fn parse_frac_scaled(v: &Vec<char>, frac_start: usize, hi: usize, k: u32) -> (r: Option<u64>)
    requires
        frac_start <= hi <= v@.len(),
        k == 2 || k == 3,
    ensures
        ({
            let fpart = v@.subrange(frac_start as int, hi as int);
            match r {
                Some(f) => all_digits(fpart) && f == frac_scaled(fpart, k as nat) && f < pow10(
                    k as nat,
                ),
                None => !all_digits(fpart),
            }
        }),
{
    let ghost fpart = v@.subrange(frac_start as int, hi as int);
    proof {
        lemma_pow10_small();
    }
    let mut f: u64 = 0;
    let mut nfrac: u32 = 0;
    let mut i = frac_start;
    while i < hi
        invariant
            frac_start <= i <= hi <= v@.len(),
            fpart == v@.subrange(frac_start as int, hi as int),
            forall|j: int| 0 <= j < i - frac_start ==> is_digit_char(fpart[j]),
            nfrac <= k,
            nfrac == if i - frac_start <= k { i - frac_start } else { k as int },
            f == digit_seq_val(fpart.take(nfrac as int)),
            f < pow10(nfrac as nat),
            k == 2 || k == 3,
        decreases hi - i,
    {
        let c = v[i];
        let d = c as u32;
        if d < 48 || d > 57 {
            proof {
                assert(fpart[i - frac_start] == c);
                assert(!is_digit_char(c));
            }
            return None;
        }
        if nfrac < k {
            proof {
                assert(fpart.take(nfrac + 1).drop_last() =~= fpart.take(nfrac as int));
                lemma_pow10_small();
                lemma_pow10_mono(nfrac as nat, 3);
                lemma_digit_val_upper(fpart.take(nfrac + 1));
            }
            f = f * 10 + (d - 48) as u64;
            nfrac += 1;
        }
        i += 1;
    }
    // Pad when fewer than `k` digits were present.
    proof {
        lemma_pow10_mono(nfrac as nat, k as nat);
        lemma_pow10_small();
        let fv = digit_seq_val(fpart.take(nfrac as int));
        assert(fv * pow10(0) == fv);
    }
    let mut pad = nfrac;
    while pad < k
        invariant
            nfrac <= pad <= k,
            k == 2 || k == 3,
            fpart == v@.subrange(frac_start as int, hi as int),
            forall|j: int| 0 <= j < fpart.len() ==> is_digit_char(fpart[j]),
            nfrac == if fpart.len() <= k { fpart.len() as int } else { k as int },
            f == digit_seq_val(fpart.take(nfrac as int)) * pow10((pad - nfrac) as nat),
            fpart.len() < k ==> nfrac == fpart.len(),
            f < pow10(k as nat),
        decreases k - pad,
    {
        proof {
            lemma_digit_seq_val_nonneg(fpart.take(nfrac as int));
            lemma_frac_bound(fpart.take(nfrac as int), (pad + 1 - nfrac) as nat, k as nat);
            let fv = digit_seq_val(fpart.take(nfrac as int));
            let e = (pad - nfrac) as nat;
            assert(pow10((e + 1) as nat) == 10 * pow10(e));
            assert(fv * (10 * pow10(e)) == 10 * (fv * pow10(e))) by (nonlinear_arith);
        }
        f = f * 10;
        pad += 1;
    }
    proof {
        let fv = digit_seq_val(fpart.take(nfrac as int));
        assert(fv * pow10(0) == fv);
        if fpart.len() >= k {
            assert(nfrac == k as int);
            assert(frac_scaled(fpart, k as nat) == f);
        } else {
            assert(fpart.take(nfrac as int) =~= fpart);
            assert(frac_scaled(fpart, k as nat) == f);
        }
    }
    Some(f)
}

/// When a digit-prefix of the integer part already exceeds `DEC_MAX`,
/// the whole literal's scaled value exceeds it too.
proof fn lemma_reject_big_int_part(body: Seq<char>, p: int, k: nat)
    requires
        0 <= p <= body.len(),
        forall|j: int| 0 <= j < p ==> is_digit_char(body[j]),
        digit_seq_val(body.take(p)) > dec_max_spec(),
    ensures
        is_unsigned_dec(body) ==> unsigned_dec_scaled(body, k) > dec_max_spec(),
{
    if is_unsigned_dec(body) {
        lemma_dot_index(body);
        let d = dot_index(body);
        if d < p {
            // body[d] is a dot, yet all of the first p characters are digits.
            assert(is_digit_char(body[d]));
            assert(body[d] == '.');
            assert(('.' as u32) < 48);
        }
        assert(body.take(p) =~= dec_int_part(body).take(p));
        lemma_digit_seq_prefix_le(dec_int_part(body), p);
        lemma_pow10_pos(k);
        lemma_frac_nonneg(dec_frac_part(body), k);
        lemma_mul_le(digit_seq_val(body.take(p)), digit_seq_val(dec_int_part(body)), pow10(k));
    }
}

proof fn lemma_pow10_small()
    ensures
        pow10(0) == 1,
        pow10(1) == 10,
        pow10(2) == 100,
        pow10(3) == 1000,
{
    assert(pow10(0) == 1);
    assert(pow10(1) == 10);
    assert(pow10(2) == 100);
    assert(pow10(3) == 1000);
}

proof fn lemma_pow10_pos(k: nat)
    ensures
        pow10(k) >= 1,
    decreases k,
{
    if k > 0 {
        lemma_pow10_pos((k - 1) as nat);
    }
}

proof fn lemma_frac_nonneg(f: Seq<char>, k: nat)
    requires
        all_digits(f),
    ensures
        frac_scaled(f, k) >= 0,
{
    lemma_pow10_pos(k);
    if f.len() >= k {
        lemma_digit_seq_val_nonneg(f.take(k as int));
    } else {
        lemma_digit_seq_val_nonneg(f);
        lemma_pow10_pos((k - f.len()) as nat);
        lemma_mul_nonneg(digit_seq_val(f), pow10((k - f.len()) as nat));
    }
}

proof fn lemma_mul_nonneg(a: int, b: int)
    requires
        a >= 0,
        b >= 0,
    ensures
        a * b >= 0,
{
    assert(a * b >= 0) by (nonlinear_arith)
        requires
            a >= 0,
            b >= 0,
    ;
}

proof fn lemma_mul_le(a: int, b: int, c: int)
    requires
        a <= b,
        c >= 1,
    ensures
        a * c <= b * c,
        a <= a * c || a < 0,
{
    assert(a * c <= b * c) by (nonlinear_arith)
        requires
            a <= b,
            c >= 1,
    ;
    assert(a <= a * c || a < 0) by (nonlinear_arith)
        requires
            c >= 1,
    ;
}

/// `digit_seq_val(f.take(n)) * 10^(e)` stays below `10^k` while
/// `n + e <= k`.
proof fn lemma_frac_bound(fpre: Seq<char>, e: nat, k: nat)
    requires
        all_digits(fpre),
        fpre.len() + e <= k,
    ensures
        digit_seq_val(fpre) * pow10(e) < pow10(k),
{
    lemma_digit_val_upper(fpre);
    lemma_pow10_pos(e);
    lemma_pow10_mono(fpre.len() + e, k);
    lemma_pow10_mul(fpre.len() as nat, e);
    assert(digit_seq_val(fpre) * pow10(e) <= (pow10(fpre.len() as nat) - 1) * pow10(e))
        by (nonlinear_arith)
        requires
            digit_seq_val(fpre) <= pow10(fpre.len() as nat) - 1,
            pow10(e) >= 1,
    ;
    assert((pow10(fpre.len() as nat) - 1) * pow10(e) == pow10(fpre.len() as nat) * pow10(e) - pow10(
        e,
    )) by (nonlinear_arith);
}

proof fn lemma_pow10_mono(a: nat, b: nat)
    requires
        a <= b,
    ensures
        pow10(a) <= pow10(b),
    decreases b,
{
    if a < b {
        lemma_pow10_mono(a, (b - 1) as nat);
        lemma_pow10_pos((b - 1) as nat);
    }
}

proof fn lemma_pow10_mul(a: nat, b: nat)
    ensures
        pow10(a) * pow10(b) == pow10(a + b),
    decreases a,
{
    if a == 0 {
    } else {
        lemma_pow10_mul((a - 1) as nat, b);
        assert(pow10(a) * pow10(b) == 10 * pow10((a - 1) as nat) * pow10(b));
        assert(10 * pow10((a - 1) as nat) * pow10(b) == 10 * (pow10((a - 1) as nat) * pow10(b)))
            by (nonlinear_arith);
    }
}

/// A digit string of length n has value below 10^n.
proof fn lemma_digit_val_upper(s: Seq<char>)
    requires
        all_digits(s),
    ensures
        digit_seq_val(s) < pow10(s.len() as nat),
    decreases s.len(),
{
    if s.len() == 0 {
    } else {
        lemma_digit_val_upper(s.drop_last());
        lemma_pow10_pos((s.len() - 1) as nat);
        assert(digit_val(s.last()) <= 9);
        assert(10 * digit_seq_val(s.drop_last()) <= 10 * (pow10((s.len() - 1) as nat) - 1))
            by (nonlinear_arith)
            requires
                digit_seq_val(s.drop_last()) <= pow10((s.len() - 1) as nat) - 1,
        ;
    }
}

/// When the first `p` characters are digits and the character at `p`
/// (if any) is a dot, `p` is the dot index.
proof fn lemma_first_dot(body: Seq<char>, p: int)
    requires
        0 <= p <= body.len(),
        forall|j: int| 0 <= j < p ==> is_digit_char(body[j]),
        p < body.len() ==> body[p] == '.',
    ensures
        dot_index(body) == p,
{
    lemma_dot_index(body);
    let d = dot_index(body);
    if d < p {
        assert(is_digit_char(body[d]));
        assert(body[d] == '.');
        assert(('.' as u32) < 48);
    }
    if d > p && p < body.len() {
        assert(body[p] != '.');
    }
}

// ------------------------------------------------------------------
// Tempo parsing.
// ------------------------------------------------------------------

/// The tempo argument with an optional leading `!` removed.
pub open spec fn tempo_body(t: Seq<char>) -> Seq<char> {
    if t.len() > 0 && t[0] == '!' {
        t.drop_first()
    } else {
        t
    }
}

/// Parses a tempo argument into thousandths of a beat per minute.
/// The input is trimmed and one leading `!` is stripped; nothing else
/// is stripped. The tempo grammar is a plain decimal number - an
/// optional sign, digits, an optional fraction - and the value must
/// be positive: this is the intended syntax of the tempo argument
/// (exponent and non-finite spellings are not tempos). The resolution
/// is one thousandth of a beat per minute; values below it or above
/// `DEC_MAX` thousandths are rejected.
pub fn tempo_parser(s: &str) -> (r: Result<u64, String>)
    ensures
        ({
            let u = tempo_body(trim(s@));
            if is_signed_dec(u) && 0 < signed_dec_scaled(u, 3) <= dec_max_spec() {
                r is Ok && r->Ok_0 == signed_dec_scaled(u, 3)
            } else {
                r is Err
            }
        }),
{
    let v = chars_of(s);
    let (lo, hi) = trim_range(&v);
    let lo2 = if lo < hi && v[lo] == '!' { lo + 1 } else { lo };
    proof {
        assert(tempo_body(trim(s@)) =~= v@.subrange(lo2 as int, hi as int));
    }
    match parse_dec_scaled(&v, lo2, hi, 3) {
        Some(x) => {
            if x <= 0 {
                Err(String::from_str("Tempo must be positive"))
            } else {
                Ok(x as u64)
            }
        },
        None => Err(String::from_str("Invalid tempo value")),
    }
}

// ------------------------------------------------------------------
// Analysis sidecar path.
// ------------------------------------------------------------------

/// The path of the analysis sidecar that belongs to a source file:
/// the source path with `.axxf` appended.
pub fn get_analysis_path(source: &str) -> (r: String)
    ensures
        r@ == source@ + ".axxf"@,
{
    let mut r = String::from_str(source);
    r.append(".axxf");
    r
}

} // verus!
