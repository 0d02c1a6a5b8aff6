use vstd::prelude::*;
use crate::util::{
    is_digit_char, is_signed_dec, signed_dec_scaled, dec_max_spec, parse_dec_scaled, chars_of,
};

verus! {

/// Render flags. Both values are scaled by 100: `gender` is the gender
/// shift in hundredths of its unit (default 0), `breathiness` the
/// breathiness percentage in hundredths (default 5000, i.e. 50).
pub struct Flags {
    pub gender: i64,
    pub breathiness: i64,
}

/// Default gender shift, scaled by 100.
pub const GENDER_DEFAULT: i64 = 0;

/// Default breathiness percentage, scaled by 100.
pub const BREATHINESS_DEFAULT: i64 = 5000;

/// `s` with every `/` removed.
pub open spec fn without_slash(s: Seq<char>) -> Seq<char>
    decreases s.len(),
{
    if s.len() == 0 {
        Seq::empty()
    } else if s.last() == '/' {
        without_slash(s.drop_last())
    } else {
        without_slash(s.drop_last()).push(s.last())
    }
}

/// A character that may belong to a flag's number token.
pub open spec fn is_num_char(c: char) -> bool {
    is_digit_char(c) || c == '-' || c == '.'
}

/// How many leading characters of `s` may belong to a number token.
pub open spec fn num_span(s: Seq<char>) -> nat
    decreases s.len(),
{
    if s.len() > 0 && is_num_char(s[0]) {
        1 + num_span(s.drop_first())
    } else {
        0
    }
}

/// A number token is taken when it parses as a decimal in range.
pub open spec fn token_ok(tok: Seq<char>) -> bool {
    is_signed_dec(tok) && -dec_max_spec() <= signed_dec_scaled(tok, 2) <= dec_max_spec()
}

/// The scan of the flag string: `g`/`G` and `b`/`B` start a number
/// token; a token that parses replaces the respective value; all other
/// characters are skipped.
pub open spec fn flags_scan(s: Seq<char>, g: int, b: int) -> (int, int)
    decreases s.len(),
    via flags_scan_decreases
{
    if s.len() == 0 {
        (g, b)
    } else if s[0] == 'g' || s[0] == 'G' {
        let n = num_span(s.drop_first()) as int;
        let tok = s.subrange(1, 1 + n);
        let rest = s.skip(1 + n);
        if token_ok(tok) {
            flags_scan(rest, signed_dec_scaled(tok, 2), b)
        } else {
            flags_scan(rest, g, b)
        }
    } else if s[0] == 'b' || s[0] == 'B' {
        let n = num_span(s.drop_first()) as int;
        let tok = s.subrange(1, 1 + n);
        let rest = s.skip(1 + n);
        if token_ok(tok) {
            flags_scan(rest, g, signed_dec_scaled(tok, 2))
        } else {
            flags_scan(rest, g, b)
        }
    } else {
        flags_scan(s.drop_first(), g, b)
    }
}

pub proof fn lemma_num_span_le(s: Seq<char>)
    ensures
        num_span(s) <= s.len(),
    decreases s.len(),
{
    if s.len() > 0 && is_num_char(s[0]) {
        lemma_num_span_le(s.drop_first());
    }
}

#[via_fn]
proof fn flags_scan_decreases(s: Seq<char>, g: int, b: int) {
    if s.len() > 0 {
        lemma_num_span_le(s.drop_first());
    }
}

/// The meaning of a whole flag string.
pub open spec fn flags_of(s: Seq<char>) -> (int, int) {
    flags_scan(without_slash(s), GENDER_DEFAULT as int, BREATHINESS_DEFAULT as int)
}

fn strip_slash(v: &Vec<char>) -> (r: Vec<char>)
    ensures
        r@ == without_slash(v@),
{
    let mut r: Vec<char> = Vec::new();
    let mut i: usize = 0;
    while i < v.len()
        invariant
            i <= v@.len(),
            r@ == without_slash(v@.take(i as int)),
        decreases v@.len() - i,
    {
        proof {
            assert(v@.take(i + 1).drop_last() =~= v@.take(i as int));
        }
        if !(v[i] == '/') {
            r.push(v[i]);
        }
        i += 1;
    }
    proof {
        assert(v@.take(v@.len() as int) =~= v@);
    }
    r
}

fn is_num_char_exec(c: char) -> (r: bool)
    ensures
        r == is_num_char(c),
{
    let d = c as u32;
    (48 <= d && d <= 57) || c == '-' || c == '.'
}

/// Scans past the number token that starts at `from`.
#[verifier::loop_isolation(false)]
fn num_span_exec(u: &Vec<char>, from: usize) -> (j: usize)
    requires
        from <= u@.len(),
    ensures
        from <= j <= u@.len(),
        j - from == num_span(u@.skip(from as int)),
{
    proof {
        assert(u@.skip(from as int) =~= u@.subrange(from as int, u@.len() as int));
    }
    let mut j = from;
    while j < u.len() && is_num_char_exec(u[j])
        invariant
            from <= j <= u@.len(),
            num_span(u@.skip(from as int)) == (j - from) + num_span(u@.skip(j as int)),
        decreases u@.len() - j,
    {
        proof {
            assert(u@.skip(j as int).drop_first() =~= u@.skip(j + 1));
            assert(u@.skip(j as int)[0] == u@[j as int]);
        }
        j += 1;
    }
    proof {
        if j < u@.len() {
            assert(u@.skip(j as int)[0] == u@[j as int]);
        }
        assert(num_span(u@.skip(j as int)) == 0);
    }
    j
}

impl Flags {
    /// Reads a flag string: `/` separators are dropped, `g`/`G` and
    /// `b`/`B` introduce optionally signed decimal values (scaled by
    /// 100 here), everything else is skipped; missing or malformed
    /// tokens keep the defaults.
    #[verifier::loop_isolation(false)]
    pub fn from_str(s: &str) -> (r: Flags)
        ensures
            (r.gender as int, r.breathiness as int) == flags_of(s@),
    {
        let raw = chars_of(s);
        let u = strip_slash(&raw);
        let mut g: i64 = GENDER_DEFAULT;
        let mut b: i64 = BREATHINESS_DEFAULT;
        let mut i: usize = 0;
        proof {
            assert(u@.skip(0) =~= u@);
        }
        while i < u.len()
            invariant
                i <= u@.len(),
                flags_of(s@) == flags_scan(u@.skip(i as int), g as int, b as int),
            decreases u@.len() - i,
        {
            let ghost cur = u@.skip(i as int);
            proof {
                assert(cur[0] == u@[i as int]);
            }
            let c = u[i];
            if c == 'g' || c == 'G' || c == 'b' || c == 'B' {
                let j = num_span_exec(&u, i + 1);
                proof {
                    assert(cur.drop_first() =~= u@.skip(i + 1));
                    assert(cur.subrange(1, 1 + (j - i - 1)) =~= u@.subrange(i + 1, j as int));
                    assert(cur.skip(1 + (j - i - 1)) =~= u@.skip(j as int));
                }
                match parse_dec_scaled(&u, i + 1, j, 2) {
                    Some(x) => {
                        if c == 'g' || c == 'G' {
                            g = x;
                        } else {
                            b = x;
                        }
                    },
                    None => {},
                }
                i = j;
            } else {
                proof {
                    assert(cur.drop_first() =~= u@.skip(i + 1));
                }
                i += 1;
            }
        }
        proof {
            assert(u@.skip(i as int) =~= Seq::<char>::empty());
        }
        Flags { gender: g, breathiness: b }
    }
}

} // verus!
