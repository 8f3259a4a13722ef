//! Parsing of the map-generation console command. The command's argument
//! string is a list of parts separated by `|`; each part is a list of
//! tokens separated by `-`: `size-(number)` sets the map side length,
//! `terrain-flat` or `terrain-curved[-param-x-y...]` sets the terrain
//! shape, and `help` asks for usage text. Invalid parameters are reported
//! as structured rejections and never touch the map.

use vstd::prelude::*;

use crate::map::{Axis2, CurvedTerrainSettings, MapGenerationSettings, TerrainSettings};

verus! {

/// The replies a generation command can produce; the caller renders them
/// as console text.
#[derive(Clone, Copy, Debug, PartialEq, Eq, Structural)]
pub enum GenerateReply {
    Help,
    TerrainHelp,
    GeneratingFlat,
    GeneratingCurved,
    GeneratingHelp,
    SizeParseError,
    NoTerrainType,
    UnknownTerrainType,
    UnknownArg,
}

/// What a generation command evaluated to: the replies to print, and the
/// settings to generate with, absent when the command aborted.
pub struct GenerateOutcome {
    pub replies: Vec<GenerateReply>,
    pub settings: Option<MapGenerationSettings>,
}

/// The ASCII codes bounding the upper-case letters.
pub const UPPER_A: u8 = 65;
pub const UPPER_Z: u8 = 90;

/// ASCII lowercasing of one byte.
pub open spec fn lower_byte(b: u8) -> u8 {
    if UPPER_A <= b <= UPPER_Z { (b + 32) as u8 } else { b }
}

/// ASCII lowercasing of a byte string.
pub open spec fn lower_bytes(s: Seq<u8>) -> Seq<u8> {
    Seq::new(s.len(), |i: int| lower_byte(s[i]))
}

/// Lowercases a command string, ASCII-wise.
pub fn to_lowercase_bytes(s: &Vec<u8>) -> (r: Vec<u8>)
    ensures
        r@ == lower_bytes(s@),
{
    let n = s.len();
    let mut r: Vec<u8> = Vec::new();
    let mut i: usize = 0;
    while i < n
        invariant
            n == s@.len(),
            i <= n,
            r@.len() == i,
            forall|t: int| 0 <= t < i ==> #[trigger] r@[t] == lower_byte(s@[t]),
        decreases n - i,
    {
        let b = s[i];
        if UPPER_A <= b && b <= UPPER_Z {
            r.push(b + 32);
        } else {
            r.push(b);
        }
        i = i + 1;
    }
    proof {
        assert(r@ =~= lower_bytes(s@));
    }
    r
}

/// The position of the first `sep` in `s`, or `s.len()` if none occurs.
pub open spec fn find_sep(s: Seq<u8>, sep: u8) -> int
    decreases s.len(),
{
    if s.len() == 0 {
        0
    } else if s[0] == sep {
        0
    } else {
        1 + find_sep(s.skip(1), sep)
    }
}

proof fn lemma_find_sep_bounds(s: Seq<u8>, sep: u8)
    ensures
        0 <= find_sep(s, sep) <= s.len(),
        find_sep(s, sep) < s.len() ==> s[find_sep(s, sep)] == sep,
        forall|t: int| 0 <= t < find_sep(s, sep) ==> s[t] != sep,
    decreases s.len(),
{
    if s.len() > 0 && s[0] != sep {
        lemma_find_sep_bounds(s.skip(1), sep);
        let k = find_sep(s, sep);
        assert forall|t: int| 0 <= t < k implies s[t] != sep by {
            if t > 0 {
                assert(s.skip(1)[t - 1] != sep);
            }
        }
        if k < s.len() {
            assert(s.skip(1)[k - 1] == sep);
        }
    }
}

/// The parts of `s` between occurrences of `sep`, in order. Splitting
/// always yields at least one (possibly empty) part.
pub open spec fn split_spec(s: Seq<u8>, sep: u8) -> Seq<Seq<u8>>
    decreases s.len(),
{
    let k = find_sep(s, sep);
    if k < 0 || k >= s.len() {
        seq![s]
    } else {
        seq![s.take(k)] + split_spec(s.skip(k + 1), sep)
    }
}

proof fn lemma_split_nonempty(s: Seq<u8>, sep: u8)
    ensures
        split_spec(s, sep).len() >= 1,
    decreases s.len(),
{
    lemma_find_sep_bounds(s, sep);
}

/// How splitting consumes one leading byte: a separator closes the first
/// (empty) part; any other byte extends the first part.
proof fn lemma_split_step(s: Seq<u8>, sep: u8)
    requires
        s.len() > 0,
    ensures
        s[0] == sep ==> split_spec(s, sep) == seq![Seq::<u8>::empty()] + split_spec(s.skip(1), sep),
        s[0] != sep ==> split_spec(s, sep).len() == split_spec(s.skip(1), sep).len()
            && split_spec(s, sep)[0] == seq![s[0]] + split_spec(s.skip(1), sep)[0]
            && split_spec(s, sep).skip(1) == split_spec(s.skip(1), sep).skip(1),
{
    lemma_find_sep_bounds(s, sep);
    lemma_find_sep_bounds(s.skip(1), sep);
    lemma_split_nonempty(s.skip(1), sep);
    let k = find_sep(s, sep);
    if s[0] == sep {
        assert(k == 0);
        assert(s.take(0) =~= Seq::<u8>::empty());
        assert(split_spec(s, sep) =~= seq![Seq::<u8>::empty()] + split_spec(s.skip(1), sep));
    } else {
        let k1 = find_sep(s.skip(1), sep);
        assert(k == 1 + k1);
        if k >= s.len() {
            assert(k1 >= s.skip(1).len());
            assert(split_spec(s, sep) == seq![s]);
            assert(split_spec(s.skip(1), sep) == seq![s.skip(1)]);
            assert(s =~= seq![s[0]] + s.skip(1));
            assert(split_spec(s, sep).skip(1) =~= split_spec(s.skip(1), sep).skip(1));
        } else {
            assert(s.take(k) =~= seq![s[0]] + s.skip(1).take(k1));
            assert(s.skip(k + 1) =~= s.skip(1).skip(k1 + 1));
            assert(split_spec(s, sep)[0] == s.take(k));
            assert(split_spec(s.skip(1), sep)[0] == s.skip(1).take(k1));
            assert(split_spec(s, sep).skip(1) =~= split_spec(s.skip(k + 1), sep));
            assert(split_spec(s.skip(1), sep).skip(1) =~= split_spec(s.skip(1).skip(k1 + 1), sep));
        }
    }
}

/// The byte strings of a list of byte vectors.
pub open spec fn vecs_view(parts: Seq<Vec<u8>>) -> Seq<Seq<u8>> {
    Seq::new(parts.len(), |i: int| parts[i]@)
}

/// Splits `s` at every occurrence of `sep`.
pub fn split_bytes(s: &Vec<u8>, sep: u8) -> (parts: Vec<Vec<u8>>)
    ensures
        vecs_view(parts@) == split_spec(s@, sep),
        parts@.len() >= 1,
{
    let n = s.len();
    let mut parts: Vec<Vec<u8>> = Vec::new();
    let mut cur: Vec<u8> = Vec::new();
    let mut i: usize = 0;
    proof {
        assert(s@.skip(0) =~= s@);
        lemma_split_nonempty(s@, sep);
        let rest = split_spec(s@, sep);
        assert(cur@ + rest[0] =~= rest[0]);
        assert(split_spec(s@, sep) =~~= vecs_view(parts@) + seq![cur@ + rest[0]] + rest.skip(1));
    }
    while i < n
        invariant
            n == s@.len(),
            i <= n,
            ({
                let rest = split_spec(s@.skip(i as int), sep);
                &&& rest.len() >= 1
                &&& split_spec(s@, sep) =~~= vecs_view(parts@) + seq![cur@ + rest[0]] + rest.skip(1)
            }),
        decreases n - i,
    {
        let ghost pre = s@.skip(i as int);
        proof {
            assert(pre.len() > 0);
            lemma_split_step(pre, sep);
            lemma_split_nonempty(pre.skip(1), sep);
            assert(pre.skip(1) =~= s@.skip(i + 1));
        }
        let b = s[i];
        proof {
            assert(pre[0] == s@[i as int]);
        }
        if b == sep {
            parts.push(cur);
            cur = Vec::new();
            proof {
                let rest = split_spec(s@.skip(i + 1), sep);
                assert(split_spec(pre, sep) =~~= seq![Seq::<u8>::empty()] + rest);
                assert(vecs_view(parts@) =~~= vecs_view(parts@.drop_last()) + seq![parts@.last()@]);
                assert(cur@ + rest[0] =~= rest[0]);
                assert(split_spec(s@, sep) =~~= vecs_view(parts@) + seq![cur@ + rest[0]] + rest.skip(1));
            }
        } else {
            cur.push(b);
            proof {
                let rest = split_spec(s@.skip(i + 1), sep);
                assert(split_spec(pre, sep)[0] == seq![pre[0]] + rest[0]);
                assert(split_spec(pre, sep).skip(1) == rest.skip(1));
                assert(cur@ + rest[0] =~= cur@.drop_last() + split_spec(pre, sep)[0]);
                assert(split_spec(s@, sep) =~~= vecs_view(parts@) + seq![cur@ + rest[0]] + rest.skip(1));
            }
        }
        i = i + 1;
    }
    proof {
        let rest = split_spec(s@.skip(n as int), sep);
        assert(s@.skip(n as int) =~= Seq::<u8>::empty());
        assert(rest =~~= seq![Seq::<u8>::empty()]);
        assert(cur@ + rest[0] =~= cur@);
    }
    parts.push(cur);
    proof {
        assert(vecs_view(parts@) =~~= vecs_view(parts@.drop_last()) + seq![parts@.last()@]);
        assert(vecs_view(parts@) =~~= split_spec(s@, sep));
    }
    parts
}

/// Separators and digit codes of the command syntax.
pub const PIPE: u8 = 124;
pub const DASH: u8 = 45;
pub const DOT: u8 = 46;
pub const PLUS: u8 = 43;
pub const MINUS: u8 = 45;
pub const DIGIT_0: u8 = 48;
pub const DIGIT_9: u8 = 57;

/// The largest whole-unit magnitude a curve parameter may carry.
pub const WHOLE_UNITS_MAX: i64 = 1_000_000_000;

pub open spec fn is_digit(b: u8) -> bool {
    DIGIT_0 <= b <= DIGIT_9
}

pub open spec fn all_digits(s: Seq<u8>) -> bool {
    forall|t: int| 0 <= t < s.len() ==> is_digit(#[trigger] s[t])
}

/// The decimal value of a digit string.
pub open spec fn dec_val(s: Seq<u8>) -> int
    decreases s.len(),
{
    if s.len() == 0 {
        0
    } else {
        dec_val(s.drop_last()) * 10 + (s.last() - DIGIT_0)
    }
}

proof fn lemma_dec_val_nonneg(s: Seq<u8>)
    requires
        all_digits(s),
    ensures
        dec_val(s) >= 0,
    decreases s.len(),
{
    if s.len() > 0 {
        assert(all_digits(s.drop_last())) by {
            assert(forall|t: int| 0 <= t < s.len() - 1 ==> s.drop_last()[t] == s[t]);
        }
        lemma_dec_val_nonneg(s.drop_last());
    }
}

proof fn lemma_dec_val_mono(s: Seq<u8>, i: int, j: int)
    requires
        all_digits(s),
        0 <= i <= j <= s.len(),
    ensures
        dec_val(s.take(i)) <= dec_val(s.take(j)),
    decreases j - i,
{
    if i < j {
        lemma_dec_val_mono(s, i, j - 1);
        assert(s.take(j).drop_last() =~= s.take(j - 1));
        assert(all_digits(s.take(j - 1))) by {
            assert(forall|t: int| 0 <= t < j - 1 ==> s.take(j - 1)[t] == s[t]);
        }
        lemma_dec_val_nonneg(s.take(j - 1));
        assert(is_digit(s.take(j).last()));
    }
}

/// The signed integer a token denotes: an optional sign followed by at
/// least one decimal digit.
pub open spec fn int_token(s: Seq<u8>) -> Option<int> {
    if s.len() > 0 && (s[0] == MINUS || s[0] == PLUS) {
        let body = s.skip(1);
        if body.len() > 0 && all_digits(body) {
            Some(if s[0] == MINUS { -dec_val(body) } else { dec_val(body) })
        } else {
            None
        }
    } else {
        if s.len() > 0 && all_digits(s) {
            Some(dec_val(s))
        } else {
            None
        }
    }
}

/// The integer a `size` token denotes, if it fits an `i32`.
pub open spec fn int_token_i32(s: Seq<u8>) -> Option<int> {
    match int_token(s) {
        Some(v) => if i32::MIN <= v <= i32::MAX { Some(v) } else { None },
        None => None,
    }
}

/// Reads the decimal value of `tok[from..to]`, refusing any non-digit
/// and any value above `u32::MAX`.
fn dec_digits(tok: &Vec<u8>, from: usize, to: usize) -> (r: Option<u64>)
    requires
        from <= to <= tok@.len(),
    ensures
        ({
            let s = tok@.subrange(from as int, to as int);
            match r {
                Some(v) => all_digits(s) && v == dec_val(s) && dec_val(s) <= u32::MAX,
                None => !all_digits(s) || dec_val(s) > u32::MAX,
            }
        }),
{
    let ghost s = tok@.subrange(from as int, to as int);
    let mut acc: u64 = 0;
    let mut i: usize = from;
    while i < to
        invariant
            from <= i <= to <= tok@.len(),
            s == tok@.subrange(from as int, to as int),
            all_digits(s.take(i - from)),
            acc == dec_val(s.take(i - from)),
            acc <= u32::MAX,
        decreases to - i,
    {
        let b = tok[i];
        proof {
            assert(s[i - from] == tok@[i as int]);
        }
        if b < DIGIT_0 || b > DIGIT_9 {
            proof {
                assert(!is_digit(s[i - from]));
            }
            return None;
        }
        let d = (b - DIGIT_0) as u64;
        proof {
            assert(s.take(i - from + 1).drop_last() =~= s.take(i - from));
            assert(s.take(i - from + 1).last() == s[i - from]);
        }
        if acc > (u32::MAX as u64 - d) / 10 {
            proof {
                assert(all_digits(s.take(i - from + 1)));
                assert(dec_val(s.take(i - from + 1)) == acc * 10 + d);
                assert(dec_val(s.take(i - from + 1)) > u32::MAX);
                if all_digits(s) {
                    lemma_dec_val_mono(s, i - from + 1, s.len() as int);
                    assert(s.take(s.len() as int) =~= s);
                }
            }
            return None;
        }
        acc = acc * 10 + d;
        i = i + 1;
    }
    proof {
        assert(s.take(to - from) =~= s);
    }
    Some(acc)
}

/// Parses a `size` token: an optional sign, then decimal digits,
/// rejected when absent, malformed or out of the `i32` range.
pub fn parse_i32_token(tok: &Vec<u8>) -> (r: Option<i32>)
    ensures
        match int_token_i32(tok@) {
            Some(v) => r == Some(v as i32),
            None => r is None,
        },
{
    let n = tok.len();
    if n == 0 {
        return None;
    }
    let first = tok[0];
    let neg = first == MINUS;
    let signed = neg || first == PLUS;
    let from: usize = if signed { 1 } else { 0 };
    if n == from {
        return None;
    }
    proof {
        if signed {
            assert(tok@.subrange(1, n as int) =~= tok@.skip(1));
        } else {
            assert(tok@.subrange(0, n as int) =~= tok@);
        }
    }
    match dec_digits(tok, from, n) {
        Some(v) => {
            if neg {
                if v <= 0x8000_0000u64 {
                    let m: i64 = v as i64;
                    Some((-m) as i32)
                } else {
                    None
                }
            } else {
                if v <= 0x7FFF_FFFFu64 {
                    Some(v as i32)
                } else {
                    None
                }
            }
        },
        None => None,
    }
}

/// The milli-unit fixed-point value a curve-parameter token denotes: an
/// optional sign, a whole part, and an optional dot with up to three
/// fraction digits; at least one digit overall, and the whole part
/// bounded by `WHOLE_UNITS_MAX`.
pub open spec fn milli_token(s: Seq<u8>) -> Option<int> {
    let signed = s.len() > 0 && (s[0] == MINUS || s[0] == PLUS);
    let neg = s.len() > 0 && s[0] == MINUS;
    let body = if signed { s.skip(1) } else { s };
    let dot = find_sep(body, DOT);
    let whole = body.take(dot);
    let frac = if dot < body.len() { body.skip(dot + 1) } else { Seq::empty() };
    if body.len() == 0 || !all_digits(whole) || !all_digits(frac)
        || whole.len() + frac.len() == 0 || frac.len() > 3
        || dec_val(whole) > WHOLE_UNITS_MAX
        || (dot < body.len() && find_sep(body.skip(dot + 1), DOT) < frac.len()) {
        None
    } else {
        let magnitude = dec_val(whole) * 1000 + frac_milli(frac);
        Some(if neg { -magnitude } else { magnitude })
    }
}

/// The milli-unit value of up to three fraction digits.
pub open spec fn frac_milli(frac: Seq<u8>) -> int {
    if frac.len() == 0 {
        0
    } else if frac.len() == 1 {
        (frac[0] - DIGIT_0) * 100
    } else if frac.len() == 2 {
        dec_val(frac) * 10
    } else {
        dec_val(frac)
    }
}

/// Parses a curve-parameter token into milli-units.
#[verifier::rlimit(60)]
#[verifier::spinoff_prover]
pub fn parse_milli_token(tok: &Vec<u8>) -> (r: Option<i64>)
    ensures
        match milli_token(tok@) {
            Some(v) => r == Some(v as i64),
            None => r is None,
        },
{
    let n = tok.len();
    if n == 0 {
        return None;
    }
    let first = tok[0];
    let neg = first == MINUS;
    let signed = neg || first == PLUS;
    let from: usize = if signed { 1 } else { 0 };
    let ghost body = if signed { tok@.skip(1) } else { tok@ };
    proof {
        assert(body =~= tok@.subrange(from as int, n as int));
    }
    if n == from {
        return None;
    }
    // locate the dot inside the body
    let mut dot: usize = from;
    while dot < n && tok[dot] != DOT
        invariant
            from <= dot <= n,
            n == tok@.len(),
            forall|t: int| from <= t < dot ==> tok@[t] != DOT,
        decreases n - dot,
    {
        dot = dot + 1;
    }
    proof {
        lemma_find_sep_bounds(body, DOT);
        assert(find_sep(body, DOT) == dot - from) by {
            lemma_find_sep_at(body, DOT, dot - from);
        }
        assert(body.take(dot - from) =~= tok@.subrange(from as int, dot as int));
    }
    let whole_opt = dec_digits(tok, from, dot);
    let whole = match whole_opt {
        Some(v) => v,
        None => {
            return None;
        },
    };
    if whole > WHOLE_UNITS_MAX as u64 {
        return None;
    }
    if dot >= n {
        // no fraction part: the whole part must be nonempty
        if dot == from {
            return None;
        }
        proof {
            assert(milli_token(tok@) matches Some(v)
                && v == dec_val(body.take(dot - from)) * 1000 * (if neg { -1int } else { 1int }));
        }
        if neg {
            return Some(-(whole as i64) * 1000);
        }
        return Some((whole as i64) * 1000);
    }
    // fraction part present
    let fstart = dot + 1;
    let flen = n - fstart;
    let ghost frac = body.skip(dot - from + 1);
    proof {
        assert(frac =~= tok@.subrange(fstart as int, n as int));
        assert(frac.len() == flen);
        assert(body.take(dot - from) =~= tok@.subrange(from as int, dot as int));
    }
    if flen > 3 {
        proof {
            assert(milli_token(tok@) is None);
        }
        return None;
    }
    if dot == from && flen == 0 {
        proof {
            assert(milli_token(tok@) is None);
        }
        return None;
    }
    // a second dot in the fraction is malformed
    let mut t: usize = fstart;
    while t < n
        invariant
            fstart <= t <= n,
            n == tok@.len(),
            fstart == dot + 1,
            from <= dot < n,
            signed ==> body == tok@.skip(1),
            !signed ==> body == tok@,
            signed == (tok@.len() > 0 && (tok@[0] == MINUS || tok@[0] == PLUS)),
            neg == (tok@.len() > 0 && tok@[0] == MINUS),
            from == (if signed { 1int } else { 0int }),
            frac == body.skip(dot - from + 1),
            frac.len() == n - fstart,
            find_sep(body, DOT) == dot - from,
            forall|u: int| fstart <= u < t ==> tok@[u] != DOT,
        decreases n - t,
    {
        if tok[t] == DOT {
            proof {
                assert(frac =~= tok@.subrange(fstart as int, n as int));
                assert(frac[t - fstart] == DOT);
                assert(!is_digit(DOT));
                assert(!all_digits(frac));
                assert(milli_token(tok@) is None);
            }
            return None;
        }
        t = t + 1;
    }
    let frac_opt = dec_digits(tok, fstart, n);
    let fv = match frac_opt {
        Some(v) => v,
        None => {
            proof {
                assert(frac =~= tok@.subrange(fstart as int, n as int));
                if all_digits(frac) {
                    lemma_dec_val_le3(frac);
                }
                assert(milli_token(tok@) is None);
            }
            return None;
        },
    };
    let scaled: i64 = if flen == 0 {
        0
    } else if flen == 1 {
        (fv as i64) * 100
    } else if flen == 2 {
        (fv as i64) * 10
    } else {
        fv as i64
    };
    proof {
        lemma_find_sep_bounds(frac, DOT);
        assert(find_sep(frac, DOT) >= frac.len()) by {
            if find_sep(frac, DOT) < frac.len() {
                assert(frac[find_sep(frac, DOT)] == DOT);
                assert(tok@[fstart + find_sep(frac, DOT)] == DOT);
            }
        }
        if frac.len() >= 1 {
            assert(dec_val(frac) >= 0) by { lemma_dec_val_nonneg(frac); }
            assert(dec_val(frac) <= u32::MAX);
            if frac.len() == 1 {
                assert(frac.drop_last() =~= Seq::<u8>::empty());
                assert(dec_val(frac) == dec_val(frac.drop_last()) * 10 + (frac.last() - DIGIT_0));
                assert(frac.last() == frac[0]);
                assert(dec_val(frac) == frac[0] - DIGIT_0);
            }
        }
    }
    let magnitude = (whole as i64) * 1000 + scaled;
    if neg {
        Some(-magnitude)
    } else {
        Some(magnitude)
    }
}

/// Up to three digits denote at most 999.
proof fn lemma_dec_val_le3(s: Seq<u8>)
    requires
        all_digits(s),
        s.len() <= 3,
    ensures
        dec_val(s) <= if s.len() == 0 { 0int } else if s.len() == 1 { 9int } else if s.len() == 2 { 99int } else { 999int },
    decreases s.len(),
{
    if s.len() > 0 {
        assert(all_digits(s.drop_last())) by {
            assert(forall|t: int| 0 <= t < s.len() - 1 ==> s.drop_last()[t] == s[t]);
        }
        lemma_dec_val_le3(s.drop_last());
        assert(is_digit(s.last()));
    }
}

/// `find_sep` is exactly the first matching position.
proof fn lemma_find_sep_at(s: Seq<u8>, sep: u8, k: int)
    requires
        0 <= k <= s.len(),
        forall|t: int| 0 <= t < k ==> s[t] != sep,
        k < s.len() ==> s[k] == sep,
    ensures
        find_sep(s, sep) == k,
    decreases s.len(),
{
    if s.len() > 0 && s[0] != sep {
        assert(k >= 1);
        lemma_find_sep_at(s.skip(1), sep, k - 1);
    }
}

/// The keyword byte strings of the command grammar.
pub open spec fn kw_help() -> Seq<u8> {
    seq![104u8, 101u8, 108u8, 112u8]
}

pub open spec fn kw_size() -> Seq<u8> {
    seq![115u8, 105u8, 122u8, 101u8]
}

pub open spec fn kw_terrain() -> Seq<u8> {
    seq![116u8, 101u8, 114u8, 114u8, 97u8, 105u8, 110u8]
}

pub open spec fn kw_flat() -> Seq<u8> {
    seq![102u8, 108u8, 97u8, 116u8]
}

pub open spec fn kw_curved() -> Seq<u8> {
    seq![99u8, 117u8, 114u8, 118u8, 101u8, 100u8]
}

pub open spec fn kw_amp() -> Seq<u8> {
    seq![97u8, 109u8, 112u8]
}

pub open spec fn kw_wave() -> Seq<u8> {
    seq![119u8, 97u8, 118u8, 101u8]
}

pub open spec fn kw_vert() -> Seq<u8> {
    seq![118u8, 101u8, 114u8, 116u8]
}

pub open spec fn kw_phase() -> Seq<u8> {
    seq![112u8, 104u8, 97u8, 115u8, 101u8]
}

/// Whether a token spells one of the grammar's keywords.
fn token_is(tok: &Vec<u8>, pat: &Vec<u8>) -> (r: bool)
    ensures
        r <==> tok@ == pat@,
{
    let n = tok.len();
    if n != pat.len() {
        proof {
            assert(tok@ != pat@) by {
                if tok@ == pat@ {
                    assert(tok@.len() == pat@.len());
                }
            }
        }
        return false;
    }
    let mut i: usize = 0;
    while i < n
        invariant
            n == tok@.len(),
            n == pat@.len(),
            i <= n,
            forall|t: int| 0 <= t < i ==> tok@[t] == pat@[t],
        decreases n - i,
    {
        if tok[i] != pat[i] {
            proof {
                assert(tok@[i as int] != pat@[i as int]);
            }
            return false;
        }
        i = i + 1;
    }
    proof {
        assert(tok@ =~= pat@);
    }
    true
}

/// Builds a keyword as bytes; `which` selects among the grammar's
/// keywords by its spec value.
fn keyword(which: u8) -> (r: Vec<u8>)
    requires
        1 <= which <= 9,
    ensures
        which == 1 ==> r@ == kw_help(),
        which == 2 ==> r@ == kw_size(),
        which == 3 ==> r@ == kw_terrain(),
        which == 4 ==> r@ == kw_flat(),
        which == 5 ==> r@ == kw_curved(),
        which == 6 ==> r@ == kw_amp(),
        which == 7 ==> r@ == kw_wave(),
        which == 8 ==> r@ == kw_vert(),
        which == 9 ==> r@ == kw_phase(),
{
    let mut r: Vec<u8> = Vec::new();
    if which == 1 {
        r.push(104);
        r.push(101);
        r.push(108);
        r.push(112);
        proof {
            assert(r@ =~= kw_help());
        }
    } else if which == 2 {
        r.push(115);
        r.push(105);
        r.push(122);
        r.push(101);
        proof {
            assert(r@ =~= kw_size());
        }
    } else if which == 3 {
        r.push(116);
        r.push(101);
        r.push(114);
        r.push(114);
        r.push(97);
        r.push(105);
        r.push(110);
        proof {
            assert(r@ =~= kw_terrain());
        }
    } else if which == 4 {
        r.push(102);
        r.push(108);
        r.push(97);
        r.push(116);
        proof {
            assert(r@ =~= kw_flat());
        }
    } else if which == 5 {
        r.push(99);
        r.push(117);
        r.push(114);
        r.push(118);
        r.push(101);
        r.push(100);
        proof {
            assert(r@ =~= kw_curved());
        }
    } else if which == 6 {
        r.push(97);
        r.push(109);
        r.push(112);
        proof {
            assert(r@ =~= kw_amp());
        }
    } else if which == 7 {
        r.push(119);
        r.push(97);
        r.push(118);
        r.push(101);
        proof {
            assert(r@ =~= kw_wave());
        }
    } else if which == 8 {
        r.push(118);
        r.push(101);
        r.push(114);
        r.push(116);
        proof {
            assert(r@ =~= kw_vert());
        }
    } else {
        r.push(112);
        r.push(104);
        r.push(97);
        r.push(115);
        r.push(101);
        proof {
            assert(r@ =~= kw_phase());
        }
    }
    r
}

/// One curve-parameter update: the axis pair `(x, y)` lands on the field
/// the key names; an unrecognized key changes nothing.
pub open spec fn curved_update(cur: CurvedTerrainSettings, key: Seq<u8>, x: int, y: int) -> CurvedTerrainSettings {
    let v = Axis2 { x: x as i64, y: y as i64 };
    if key == kw_amp() {
        CurvedTerrainSettings { amplitude: v, ..cur }
    } else if key == kw_wave() {
        CurvedTerrainSettings { wavelength: v, ..cur }
    } else if key == kw_vert() {
        CurvedTerrainSettings { vertical_shift: v, ..cur }
    } else if key == kw_phase() {
        CurvedTerrainSettings { phase_shift: v, ..cur }
    } else {
        cur
    }
}

/// Consumes curve parameters from token position `i` on, in triples of
/// key, x value and y value, stopping at the first missing or
/// unparseable value.
pub open spec fn curved_spec(toks: Seq<Seq<u8>>, i: int, cur: CurvedTerrainSettings) -> CurvedTerrainSettings
    decreases toks.len() - i,
{
    if i < 0 || i >= toks.len() {
        cur
    } else if i + 1 >= toks.len() || milli_token(toks[i + 1]) is None {
        cur
    } else if i + 2 >= toks.len() || milli_token(toks[i + 2]) is None {
        cur
    } else {
        curved_spec(toks, i + 3, curved_update(cur, toks[i],
            milli_token(toks[i + 1])->0, milli_token(toks[i + 2])->0))
    }
}

/// Parses the curve parameters of a `terrain-curved` part, beginning at
/// token `start`.
pub fn parse_curved_terrain_args(toks: &Vec<Vec<u8>>, start: usize) -> (r: CurvedTerrainSettings)
    ensures
        r == curved_spec(vecs_view(toks@), start as int, CurvedTerrainSettings {
            amplitude: Axis2 { x: 0, y: 0 },
            wavelength: Axis2 { x: 0, y: 0 },
            vertical_shift: Axis2 { x: 0, y: 0 },
            phase_shift: Axis2 { x: 0, y: 0 },
        }),
{
    let ghost tv = vecs_view(toks@);
    let kw_amp_v = keyword(6);
    let kw_wave_v = keyword(7);
    let kw_vert_v = keyword(8);
    let kw_phase_v = keyword(9);
    let mut cur = CurvedTerrainSettings::default();
    let n = toks.len();
    let mut i: usize = start;
    while i < n
        invariant
            n == toks@.len(),
            tv == vecs_view(toks@),
            kw_amp_v@ == kw_amp(),
            kw_wave_v@ == kw_wave(),
            kw_vert_v@ == kw_vert(),
            kw_phase_v@ == kw_phase(),
            start <= i || i <= n,
            curved_spec(tv, start as int, CurvedTerrainSettings {
                amplitude: Axis2 { x: 0, y: 0 },
                wavelength: Axis2 { x: 0, y: 0 },
                vertical_shift: Axis2 { x: 0, y: 0 },
                phase_shift: Axis2 { x: 0, y: 0 },
            }) == curved_spec(tv, i as int, cur),
        decreases n - i,
    {
        if i + 1 >= n {
            proof {
                assert(curved_spec(tv, i as int, cur) == cur);
            }
            return cur;
        }
        let x = match parse_milli_token(&toks[i + 1]) {
            Some(v) => v,
            None => {
                proof {
                    assert(tv[i + 1] == toks@[i + 1]@);
                    assert(curved_spec(tv, i as int, cur) == cur);
                }
                return cur;
            },
        };
        if i + 2 >= n {
            proof {
                assert(curved_spec(tv, i as int, cur) == cur);
            }
            return cur;
        }
        let y = match parse_milli_token(&toks[i + 2]) {
            Some(v) => v,
            None => {
                proof {
                    assert(tv[i + 2] == toks@[i + 2]@);
                    assert(curved_spec(tv, i as int, cur) == cur);
                }
                return cur;
            },
        };
        let v = Axis2 { x, y };
        let key = &toks[i];
        let next = if token_is(key, &kw_amp_v) {
            CurvedTerrainSettings { amplitude: v, ..cur }
        } else if token_is(key, &kw_wave_v) {
            CurvedTerrainSettings { wavelength: v, ..cur }
        } else if token_is(key, &kw_vert_v) {
            CurvedTerrainSettings { vertical_shift: v, ..cur }
        } else if token_is(key, &kw_phase_v) {
            CurvedTerrainSettings { phase_shift: v, ..cur }
        } else {
            cur
        };
        proof {
            assert(tv[i as int] == toks@[i as int]@);
            assert(tv[i + 1] == toks@[i + 1]@);
            assert(tv[i + 2] == toks@[i + 2]@);
            assert(next == curved_update(cur, tv[i as int],
                milli_token(tv[i + 1])->0, milli_token(tv[i + 2])->0));
            assert(curved_spec(tv, i as int, cur) == curved_spec(tv, i + 3, next));
        }
        cur = next;
        i = i + 3;
    }
    proof {
        assert(curved_spec(tv, i as int, cur) == cur);
    }
    cur
}

/// What the generation command replies and generates, processed part by
/// part: `help` aborts with usage text, `size-(number)` updates the side
/// length (an unparseable size is a rejected generation parameter: the
/// command replies the error and aborts without generating), `terrain-...`
/// selects the shape (aborting on a missing or unknown shape), and any
/// other argument aborts.
pub open spec fn process_parts(parts: Seq<Seq<u8>>, cur: MapGenerationSettings) -> (Seq<GenerateReply>, Option<MapGenerationSettings>)
    decreases parts.len(),
{
    if parts.len() == 0 {
        (Seq::empty(), Some(cur))
    } else {
        let toks = split_spec(parts[0], DASH);
        let head = toks[0];
        if head == kw_help() {
            (seq![GenerateReply::Help], None)
        } else if head == kw_size() {
            if toks.len() >= 2 && int_token_i32(toks[1]) is Some {
                process_parts(parts.skip(1), MapGenerationSettings {
                    size: int_token_i32(toks[1])->0 as i32,
                    ..cur
                })
            } else {
                (seq![GenerateReply::SizeParseError], None)
            }
        } else if head == kw_terrain() {
            if toks.len() < 2 {
                (seq![GenerateReply::NoTerrainType], None)
            } else if toks[1] == kw_flat() {
                let rec = process_parts(parts.skip(1), MapGenerationSettings {
                    terrain: TerrainSettings::FLAT,
                    ..cur
                });
                (seq![GenerateReply::GeneratingFlat] + rec.0, rec.1)
            } else if toks[1] == kw_curved() {
                let rec = process_parts(parts.skip(1), MapGenerationSettings {
                    terrain: TerrainSettings::CURVED(curved_spec(toks, 2, CurvedTerrainSettings {
                        amplitude: Axis2 { x: 0, y: 0 },
                        wavelength: Axis2 { x: 0, y: 0 },
                        vertical_shift: Axis2 { x: 0, y: 0 },
                        phase_shift: Axis2 { x: 0, y: 0 },
                    })),
                    ..cur
                });
                (seq![GenerateReply::GeneratingCurved] + rec.0, rec.1)
            } else if toks[1] == kw_help() {
                let rec = process_parts(parts.skip(1), cur);
                (seq![GenerateReply::TerrainHelp, GenerateReply::GeneratingHelp] + rec.0, rec.1)
            } else {
                (seq![GenerateReply::UnknownTerrainType], None)
            }
        } else {
            (seq![GenerateReply::UnknownArg], None)
        }
    }
}

/// Evaluates a generation command: lowercases the argument string,
/// splits it into `|`-separated parts and processes each part in order,
/// returning the replies to print and, unless the command aborted, the
/// settings to generate with.
pub fn generate_command(args: &Vec<u8>) -> (out: GenerateOutcome)
    ensures
        ({
            let r = process_parts(split_spec(lower_bytes(args@), PIPE), MapGenerationSettings {
                size: crate::map::MAP_SIZE_DEFAULT,
                terrain: TerrainSettings::FLAT,
            });
            out.replies@ == r.0 && out.settings == r.1
        }),
{
    let lowered = to_lowercase_bytes(args);
    let parts = split_bytes(&lowered, PIPE);
    let ghost pv = vecs_view(parts@);
    let kw_help_v = keyword(1);
    let kw_size_v = keyword(2);
    let kw_terrain_v = keyword(3);
    let kw_flat_v = keyword(4);
    let kw_curved_v = keyword(5);
    let mut replies: Vec<GenerateReply> = Vec::new();
    let mut cur = MapGenerationSettings { size: crate::map::MAP_SIZE_DEFAULT, terrain: TerrainSettings::FLAT };
    let ghost start_settings = cur;
    let n = parts.len();
    let mut e: usize = 0;
    proof {
        assert(pv.skip(0) =~= pv);
    }
    while e < n
        invariant
            n == parts@.len(),
            pv == vecs_view(parts@),
            pv == split_spec(lower_bytes(args@), PIPE),
            start_settings == (MapGenerationSettings {
                size: crate::map::MAP_SIZE_DEFAULT,
                terrain: TerrainSettings::FLAT,
            }),
            kw_help_v@ == kw_help(),
            kw_size_v@ == kw_size(),
            kw_terrain_v@ == kw_terrain(),
            kw_flat_v@ == kw_flat(),
            kw_curved_v@ == kw_curved(),
            e <= n,
            ({
                let whole = process_parts(pv, start_settings);
                let rest = process_parts(pv.skip(e as int), cur);
                whole.0 == replies@ + rest.0 && whole.1 == rest.1
            }),
        decreases n - e,
    {
        let ghost rest_pre = pv.skip(e as int);
        let ghost r0 = replies@;
        let ghost cur0 = cur;
        proof {
            assert(rest_pre.len() > 0);
            assert(rest_pre[0] == parts@[e as int]@);
            assert(rest_pre.skip(1) =~= pv.skip(e + 1));
        }
        let toks = split_bytes(&parts[e], DASH);
        let ghost tv = vecs_view(toks@);
        proof {
            assert(tv == split_spec(rest_pre[0], DASH));
            assert(tv[0] == toks@[0]@);
        }
        let head = &toks[0];
        if token_is(head, &kw_help_v) {
            replies.push(GenerateReply::Help);
            proof {
                assert(process_parts(rest_pre, cur0).0 =~= seq![GenerateReply::Help]);
                assert(replies@ =~= r0 + seq![GenerateReply::Help]);
                assert(process_parts(pv, start_settings).0 =~= replies@);
            }
            return GenerateOutcome { replies, settings: None };
        } else if token_is(head, &kw_size_v) {
            let mut parsed = false;
            if toks.len() >= 2 {
                proof {
                    assert(tv[1] == toks@[1]@);
                }
                match parse_i32_token(&toks[1]) {
                    Some(v) => {
                        cur = MapGenerationSettings { size: v, terrain: cur.terrain };
                        parsed = true;
                    },
                    None => {},
                }
            }
            if !parsed {
                replies.push(GenerateReply::SizeParseError);
                proof {
                    assert(process_parts(rest_pre, cur0).0 =~= seq![GenerateReply::SizeParseError]);
                    assert(replies@ =~= r0 + seq![GenerateReply::SizeParseError]);
                    assert(process_parts(pv, start_settings).0 =~= replies@);
                }
                return GenerateOutcome { replies, settings: None };
            }
            proof {
                assert(process_parts(rest_pre, cur0) == process_parts(pv.skip(e + 1), cur));
            }
        } else if token_is(head, &kw_terrain_v) {
            if toks.len() < 2 {
                replies.push(GenerateReply::NoTerrainType);
                proof {
                    assert(process_parts(rest_pre, cur0).0 =~= seq![GenerateReply::NoTerrainType]);
                    assert(replies@ =~= r0 + seq![GenerateReply::NoTerrainType]);
                    assert(process_parts(pv, start_settings).0 =~= replies@);
                }
                return GenerateOutcome { replies, settings: None };
            }
            proof {
                assert(tv[1] == toks@[1]@);
            }
            if token_is(&toks[1], &kw_flat_v) {
                cur = MapGenerationSettings { size: cur.size, terrain: TerrainSettings::FLAT };
                replies.push(GenerateReply::GeneratingFlat);
                proof {
                    let rec = process_parts(pv.skip(e + 1), cur);
                    assert(process_parts(rest_pre, cur0).0
                        =~= seq![GenerateReply::GeneratingFlat] + rec.0);
                    assert(replies@ =~= r0 + seq![GenerateReply::GeneratingFlat]);
                    assert(r0 + (seq![GenerateReply::GeneratingFlat] + rec.0) =~= replies@ + rec.0);
                }
            } else if token_is(&toks[1], &kw_curved_v) {
                let curve = parse_curved_terrain_args(&toks, 2);
                cur = MapGenerationSettings { size: cur.size, terrain: TerrainSettings::CURVED(curve) };
                replies.push(GenerateReply::GeneratingCurved);
                proof {
                    let rec = process_parts(pv.skip(e + 1), cur);
                    assert(process_parts(rest_pre, cur0).0
                        =~= seq![GenerateReply::GeneratingCurved] + rec.0);
                    assert(replies@ =~= r0 + seq![GenerateReply::GeneratingCurved]);
                    assert(r0 + (seq![GenerateReply::GeneratingCurved] + rec.0) =~= replies@ + rec.0);
                }
            } else if token_is(&toks[1], &kw_help_v) {
                replies.push(GenerateReply::TerrainHelp);
                replies.push(GenerateReply::GeneratingHelp);
                proof {
                    let rec = process_parts(pv.skip(e + 1), cur);
                    assert(process_parts(rest_pre, cur0).0
                        =~= seq![GenerateReply::TerrainHelp, GenerateReply::GeneratingHelp] + rec.0);
                    assert(replies@ =~= r0
                        + seq![GenerateReply::TerrainHelp, GenerateReply::GeneratingHelp]);
                    assert(r0 + (seq![GenerateReply::TerrainHelp, GenerateReply::GeneratingHelp] + rec.0)
                        =~= replies@ + rec.0);
                }
            } else {
                replies.push(GenerateReply::UnknownTerrainType);
                proof {
                    assert(process_parts(rest_pre, cur0).0 =~= seq![GenerateReply::UnknownTerrainType]);
                    assert(replies@ =~= r0 + seq![GenerateReply::UnknownTerrainType]);
                    assert(process_parts(pv, start_settings).0 =~= replies@);
                }
                return GenerateOutcome { replies, settings: None };
            }
        } else {
            replies.push(GenerateReply::UnknownArg);
            proof {
                assert(process_parts(rest_pre, cur0).0 =~= seq![GenerateReply::UnknownArg]);
                assert(replies@ =~= r0 + seq![GenerateReply::UnknownArg]);
                assert(process_parts(pv, start_settings).0 =~= replies@);
            }
            return GenerateOutcome { replies, settings: None };
        }
        e = e + 1;
    }
    proof {
        assert(pv.skip(n as int) =~= Seq::<Seq<u8>>::empty());
    }
    GenerateOutcome { replies, settings: Some(cur) }
}

} // verus!
