//! Parsing of textual core-range expressions.
//!
//! An expression is a comma-separated list of tokens; a token is either a
//! bare decimal numeral or an inclusive range `lo-hi` with `lo <= hi`.

use vstd::prelude::*;

verus! {

/// Why a token of a range expression is rejected: a piece of it does not
/// read as a non-negative integer, or the bounds of a `lo-hi` token are
/// inverted.
#[derive(Debug, Clone, Copy, PartialEq, Eq, Structural)]
pub enum RangeError {
    ParseIntError,
    BoundariesError,
}

impl RangeError {
    /// The short diagnostic the process prints for this error.
    pub fn message(&self) -> (r: &'static str)
        ensures
            r@ == (match *self {
                RangeError::ParseIntError => "Cannot parse as an integer"@,
                RangeError::BoundariesError => "Cannot parse as a range"@,
            }),
    {
        match *self {
            RangeError::ParseIntError => "Cannot parse as an integer",
            RangeError::BoundariesError => "Cannot parse as a range",
        }
    }
}

/// A decimal digit.
pub open spec fn is_digit(c: char) -> bool {
    '0' <= c && c <= '9'
}

/// Numeric value of a digit; zero for anything else, so that `dec_val`
/// never decreases when a sequence grows.
pub open spec fn digit_value(c: char) -> nat {
    if is_digit(c) {
        ((c as u32) - ('0' as u32)) as nat
    } else {
        0
    }
}

pub open spec fn all_digits(s: Seq<char>) -> bool {
    forall|i: int| 0 <= i < s.len() ==> is_digit(#[trigger] s[i])
}

/// A non-empty, all-digit sequence: the only shape accepted as a numeral.
pub open spec fn is_number_str(s: Seq<char>) -> bool {
    s.len() > 0 && all_digits(s)
}

/// Value of a digit sequence read in base ten.
pub open spec fn dec_val(s: Seq<char>) -> nat
    decreases s.len(),
{
    if s.len() == 0 {
        0
    } else {
        dec_val(s.drop_last()) * 10 + digit_value(s.last())
    }
}

/// What parsing a numeral returns: its value when the text is a numeral
/// whose value fits in a `u32`, and `ParseIntError` otherwise.
pub open spec fn spec_parse_u32(s: Seq<char>) -> Result<u32, RangeError> {
    if is_number_str(s) && dec_val(s) <= u32::MAX {
        Ok((dec_val(s) as u32))
    } else {
        Err(RangeError::ParseIntError)
    }
}

/// The inclusive expansion `[lo, lo + 1, ..., hi]`.
pub open spec fn range_seq(lo: u32, hi: u32) -> Seq<u32>
    recommends
        lo <= hi,
{
    Seq::new((hi - lo + 1) as nat, |i: int| (lo + i) as u32)
}

/// What parsing one token returns.  A token with a `-` is split at the
/// first `-`; both pieces must be numerals and the bounds must be ordered.
/// A token without one must itself be a numeral.
pub open spec fn spec_parse_range(s: Seq<char>) -> Result<Seq<u32>, RangeError> {
    match s.index_of_first('-') {
        Some(k) => match spec_parse_u32(s.take(k)) {
            Ok(lo) => match spec_parse_u32(s.skip(k + 1)) {
                Ok(hi) => if lo > hi {
                    Err(RangeError::BoundariesError)
                } else {
                    Ok(range_seq(lo, hi))
                },
                Err(e) => Err(e),
            },
            Err(e) => Err(e),
        },
        None => match spec_parse_u32(s) {
            Ok(n) => Ok(seq![n]),
            Err(e) => Err(e),
        },
    }
}

/// Relates an executable parse result to its specification-level value.
pub open spec fn lifts_to(r: Result<Vec<u32>, RangeError>, s: Result<Seq<u32>, RangeError>) -> bool {
    match (r, s) {
        (Ok(v), Ok(sq)) => v@ == sq,
        (Err(e1), Err(e2)) => e1 == e2,
        _ => false,
    }
}

proof fn lemma_dec_val_take_mono(s: Seq<char>, i: int, j: int)
    requires
        0 <= i <= j <= s.len(),
    ensures
        dec_val(s.take(i)) <= dec_val(s.take(j)),
    decreases j - i,
{
    if i < j {
        lemma_dec_val_take_mono(s, i, j - 1);
        assert(s.take(j).drop_last() =~= s.take(j - 1));
        assert(dec_val(s.take(j)) == dec_val(s.take(j - 1)) * 10 + digit_value(s.take(j).last()));
    }
}

proof fn lemma_index_of_first_is(s: Seq<char>, c: char, k: int)
    requires
        0 <= k < s.len(),
        s[k] == c,
        forall|j: int| 0 <= j < k ==> s[j] != c,
    ensures
        s.index_of_first(c) == Some(k),
{
    s.index_of_first_ensures(c);
    assert(s.contains(c));
    match s.index_of_first(c) {
        Some(idx) => {
            if idx < k {
                assert(s[idx] != c);
            } else if idx > k {
                assert(s[k] != c);
            }
        },
        None => {
            assert(false);
        },
    }
}

proof fn lemma_index_of_first_none(s: Seq<char>, c: char)
    requires
        forall|j: int| 0 <= j < s.len() ==> s[j] != c,
    ensures
        s.index_of_first(c) is None,
{
    s.index_of_first_ensures(c);
    match s.index_of_first(c) {
        Some(idx) => {
            assert(s[idx] != c);
        },
        None => {},
    }
}

/// Index of the first occurrence of `c` at or after `from`, or the length
/// of `s` when there is none.
fn find_char_from(s: &str, from: usize, c: char) -> (r: usize)
    requires
        from <= s@.len(),
    ensures
        from <= r <= s@.len(),
        forall|j: int| from <= j < r ==> s@[j] != c,
        r < s@.len() ==> s@[r as int] == c,
{
    let n = s.unicode_len();
    let mut i = from;
    while i < n
        invariant
            from <= i <= n,
            n == s@.len(),
            forall|j: int| from <= j < i ==> s@[j] != c,
        decreases n - i,
    {
        if s.get_char(i) == c {
            return i;
        }
        i = i + 1;
    }
    i
}

/// Reads a non-negative decimal numeral, rejecting anything else and any
/// value above `u32::MAX`.
pub fn parse_u32(s: &str) -> (r: Result<u32, RangeError>)
    ensures
        r == spec_parse_u32(s@),
{
    let n = s.unicode_len();
    if n == 0 {
        return Err(RangeError::ParseIntError);
    }
    let mut acc: u64 = 0;
    let mut i: usize = 0;
    while i < n
        invariant
            0 <= i <= n,
            n == s@.len(),
            all_digits(s@.take(i as int)),
            acc == dec_val(s@.take(i as int)),
            acc <= u32::MAX,
        decreases n - i,
    {
        let c = s.get_char(i);
        if c < '0' || c > '9' {
            assert(!is_digit(s@[i as int]));
            return Err(RangeError::ParseIntError);
        }
        let d: u32 = (c as u32) - ('0' as u32);
        proof {
            assert(s@.take(i + 1).drop_last() =~= s@.take(i as int));
            assert(s@.take(i + 1).last() == s@[i as int]);
        }
        acc = acc * 10 + (d as u64);
        if acc > u32::MAX as u64 {
            proof {
                lemma_dec_val_take_mono(s@, i + 1, n as int);
                assert(s@.take(n as int) =~= s@);
            }
            return Err(RangeError::ParseIntError);
        }
        i = i + 1;
    }
    proof {
        assert(s@.take(n as int) =~= s@);
    }
    Ok(acc as u32)
}

/// Builds the inclusive expansion of `lo..=hi`.
fn expand_range(lo: u32, hi: u32) -> (r: Vec<u32>)
    requires
        lo <= hi,
    ensures
        r@ == range_seq(lo, hi),
{
    let mut v: Vec<u32> = Vec::new();
    let mut i: u32 = lo;
    while i < hi
        invariant
            lo <= i <= hi,
            v@ == range_seq(lo, hi).take(i - lo),
        decreases hi - i,
    {
        v.push(i);
        i = i + 1;
        proof {
            assert(v@ =~= range_seq(lo, hi).take(i - lo));
        }
    }
    v.push(hi);
    proof {
        assert(v@ =~= range_seq(lo, hi));
    }
    v
}

/// Parses one token: a bare numeral `n` gives `[n]`; a range `lo-hi` gives
/// the inclusive expansion, `BoundariesError` when `lo > hi`, and
/// `ParseIntError` when either piece is not a numeral that fits a `u32`.
pub fn parse_range(range: &str) -> (r: Result<Vec<u32>, RangeError>)
    ensures
        lifts_to(r, spec_parse_range(range@)),
{
    let n = range.unicode_len();
    let k = find_char_from(range, 0, '-');
    if k < n {
        proof {
            lemma_index_of_first_is(range@, '-', k as int);
        }
        let a = range.substring_char(0, k);
        let b = range.substring_char(k + 1, n);
        proof {
            assert(a@ =~= range@.take(k as int));
            assert(b@ =~= range@.skip(k + 1));
        }
        match parse_u32(a) {
            Ok(lo) => match parse_u32(b) {
                Ok(hi) => if lo > hi {
                    Err(RangeError::BoundariesError)
                } else {
                    Ok(expand_range(lo, hi))
                },
                Err(e) => Err(e),
            },
            Err(e) => Err(e),
        }
    } else {
        proof {
            lemma_index_of_first_none(range@, '-');
        }
        match parse_u32(range) {
            Ok(x) => {
                let mut v: Vec<u32> = Vec::new();
                v.push(x);
                proof {
                    assert(v@ =~= seq![x]);
                }
                Ok(v)
            },
            Err(e) => Err(e),
        }
    }
}

/// The tokens of `s` split at every comma; splitting the empty text gives
/// one empty token, so a leading, trailing or doubled comma yields an empty
/// token that the parser then rejects.
pub open spec fn split_commas(s: Seq<char>) -> Seq<Seq<char>>
    decreases s.len(),
{
    if s.len() == 0 {
        seq![Seq::<char>::empty()]
    } else if s[0] == ',' {
        seq![Seq::<char>::empty()] + split_commas(s.skip(1))
    } else {
        let rest = split_commas(s.skip(1));
        seq![seq![s[0]] + rest[0]] + rest.skip(1)
    }
}

/// Parses a token list left to right, concatenating the expansions; the
/// first failing token decides the error.
pub open spec fn flatten_tokens(toks: Seq<Seq<char>>) -> Result<Seq<u32>, RangeError>
    decreases toks.len(),
{
    if toks.len() == 0 {
        Ok(Seq::<u32>::empty())
    } else {
        match spec_parse_range(toks[0]) {
            Ok(h) => match flatten_tokens(toks.skip(1)) {
                Ok(t) => Ok(h + t),
                Err(e) => Err(e),
            },
            Err(e) => Err(e),
        }
    }
}

/// What parsing a whole expression returns: the concatenation, in input
/// order, of every token's expansion, or the first token's error.
pub open spec fn spec_parse_ranges(s: Seq<char>) -> Result<Seq<u32>, RangeError> {
    flatten_tokens(split_commas(s))
}

proof fn lemma_split_commas_len(s: Seq<char>)
    ensures
        split_commas(s).len() >= 1,
    decreases s.len(),
{
    if s.len() != 0 {
        lemma_split_commas_len(s.skip(1));
    }
}

proof fn lemma_split_commas_no_comma(s: Seq<char>)
    requires
        forall|j: int| 0 <= j < s.len() ==> s[j] != ',',
    ensures
        split_commas(s) == seq![s],
    decreases s.len(),
{
    if s.len() == 0 {
        assert(split_commas(s) =~~= seq![s]);
    } else {
        lemma_split_commas_no_comma(s.skip(1));
        let rest = split_commas(s.skip(1));
        assert(rest[0] == s.skip(1));
        assert(rest.skip(1) =~~= Seq::<Seq<char>>::empty());
        assert(seq![s[0]] + s.skip(1) =~= s);
        assert(split_commas(s) =~~= seq![s]);
    }
}

proof fn lemma_split_commas_step(s: Seq<char>, k: int)
    requires
        0 <= k < s.len(),
        s[k] == ',',
        forall|j: int| 0 <= j < k ==> s[j] != ',',
    ensures
        split_commas(s) == seq![s.take(k)] + split_commas(s.skip(k + 1)),
    decreases k,
{
    if k == 0 {
        assert(s.take(0) =~= Seq::<char>::empty());
        assert(split_commas(s) =~~= seq![s.take(0)] + split_commas(s.skip(1)));
    } else {
        let t = s.skip(1);
        assert(t[k - 1] == ',');
        lemma_split_commas_step(t, k - 1);
        let rest = split_commas(t);
        assert(rest[0] == t.take(k - 1));
        assert(rest.skip(1) =~~= split_commas(t.skip(k)));
        assert(t.skip(k) =~= s.skip(k + 1));
        assert(seq![s[0]] + t.take(k - 1) =~= s.take(k));
        assert(split_commas(s) =~~= seq![s.take(k)] + split_commas(s.skip(k + 1)));
    }
}

/// The loop below has consumed some prefix of the expression into `acc`;
/// this says how the final answer for the whole expression follows from
/// whatever parsing the remaining suffix will give.
spec fn continues_to(acc: Seq<u32>, rest: Seq<char>, total: Result<Seq<u32>, RangeError>) -> bool {
    match flatten_tokens(split_commas(rest)) {
        Ok(t) => total == Ok::<Seq<u32>, RangeError>(acc + t),
        Err(e) => total == Err::<Seq<u32>, RangeError>(e),
    }
}

/// Parses a whole comma-separated expression: on success the returned list
/// holds, in input order, every token's expansion; otherwise it returns
/// the leftmost failing token's error.  Empty tokens (an empty expression,
/// a leading, trailing or doubled comma) fail with `ParseIntError`.
pub fn parse_range_expression(ranges: &str) -> (r: Result<Vec<u32>, RangeError>)
    ensures
        lifts_to(r, spec_parse_ranges(ranges@)),
{
    let n = ranges.unicode_len();
    let mut nums: Vec<u32> = Vec::new();
    let mut pos: usize = 0;
    proof {
        assert(ranges@.skip(0) =~= ranges@);
        if flatten_tokens(split_commas(ranges@)) is Ok {
            assert(Seq::<u32>::empty() + flatten_tokens(split_commas(ranges@))->Ok_0 =~= flatten_tokens(
                split_commas(ranges@),
            )->Ok_0);
        }
    }
    loop
        invariant
            pos <= n,
            n == ranges@.len(),
            continues_to(nums@, ranges@.skip(pos as int), spec_parse_ranges(ranges@)),
        decreases n - pos,
    {
        let suffix: Ghost<Seq<char>> = Ghost(ranges@.skip(pos as int));
        let end = find_char_from(ranges, pos, ',');
        let token = ranges.substring_char(pos, end);
        proof {
            assert(token@ =~= suffix@.take(end - pos));
            if end < n {
                assert(suffix@[end - pos] == ',');
                lemma_split_commas_step(suffix@, end - pos);
                assert(suffix@.skip(end - pos + 1) =~= ranges@.skip(end + 1));
            } else {
                assert(forall|j: int| 0 <= j < suffix@.len() ==> suffix@[j] != ',');
                lemma_split_commas_no_comma(suffix@);
                assert(token@ =~= suffix@);
            }
            assert(split_commas(suffix@)[0] == token@);
            assert(split_commas(suffix@).len() >= 1) by {
                lemma_split_commas_len(suffix@);
            }
        }
        match parse_range(token) {
            Err(e) => {
                return Err(e);
            },
            Ok(mut v) => {
                let ghost old_nums = nums@;
                let ghost vv = v@;
                nums.append(&mut v);
                proof {
                    if end < n {
                        let rest = ranges@.skip(end + 1);
                        assert(split_commas(suffix@).skip(1) =~= split_commas(rest));
                        match flatten_tokens(split_commas(rest)) {
                            Ok(t) => {
                                assert(old_nums + (vv + t) =~= (old_nums + vv) + t);
                            },
                            Err(_) => {},
                        }
                    } else {
                        let toks = split_commas(suffix@);
                        assert(spec_parse_range(token@) == Ok::<Seq<u32>, RangeError>(vv));
                        assert(toks.skip(1) =~~= Seq::<Seq<char>>::empty());
                        assert(flatten_tokens(toks.skip(1)) == Ok::<Seq<u32>, RangeError>(
                            Seq::<u32>::empty(),
                        ));
                        assert(flatten_tokens(toks) == Ok::<Seq<u32>, RangeError>(
                            vv + Seq::<u32>::empty(),
                        ));
                        assert(vv + Seq::<u32>::empty() =~= vv);
                        assert(spec_parse_ranges(ranges@) == Ok::<Seq<u32>, RangeError>(
                            old_nums + vv,
                        ));
                        assert(nums@ == old_nums + vv);
                    }
                }
                if end == n {
                    return Ok(nums);
                }
                pos = end + 1;
            },
        }
    }
}

/// Parses a whole expression that is known to be well-formed, returning
/// the flattened list directly.
pub fn get_nums_from_ranges(ranges: &str) -> (r: Vec<u32>)
    requires
        spec_parse_ranges(ranges@) is Ok,
    ensures
        r@ == spec_parse_ranges(ranges@)->Ok_0,
{
    match parse_range_expression(ranges) {
        Ok(v) => v,
        Err(_) => vstd::pervasive::unreached(),
    }
}

/// Law: the expansion of a range token is truly inclusive — it holds
/// every integer from `lo` through `hi`.
pub proof fn lemma_range_seq_complete(lo: u32, hi: u32, v: u32)
    requires
        lo <= v <= hi,
    ensures
        range_seq(lo, hi).contains(v),
{
    assert(range_seq(lo, hi)[v - lo] == v);
}

proof fn lemma_flatten_preserves(toks: Seq<Seq<char>>, i: int)
    requires
        flatten_tokens(toks) is Ok,
        0 <= i < toks.len(),
    ensures
        spec_parse_range(toks[i]) is Ok,
        forall|v: u32|
            spec_parse_range(toks[i])->Ok_0.contains(v) ==> flatten_tokens(toks)->Ok_0.contains(v),
    decreases toks.len(),
{
    let h = spec_parse_range(toks[0])->Ok_0;
    let t = flatten_tokens(toks.skip(1))->Ok_0;
    assert(spec_parse_range(toks[0]) is Ok);
    assert(flatten_tokens(toks.skip(1)) is Ok);
    assert(flatten_tokens(toks) == Ok::<Seq<u32>, RangeError>(h + t));
    if i != 0 {
        lemma_flatten_preserves(toks.skip(1), i - 1);
        assert(toks.skip(1)[i - 1] == toks[i]);
    }
    assert forall|v: u32|
        spec_parse_range(toks[i])->Ok_0.contains(v) implies flatten_tokens(
        toks,
    )->Ok_0.contains(v) by {
        if i == 0 {
            let k = choose|k: int| 0 <= k < h.len() && h[k] == v;
            assert((h + t)[k] == v);
        } else {
            assert(t.contains(v));
            let k = choose|k: int| 0 <= k < t.len() && t[k] == v;
            assert((h + t)[h.len() + k] == v);
        }
    }
}

/// Law: a successful parse of a whole expression loses nothing — every
/// token parses, and each integer a token lists appears in the flattened
/// result (the result's exact order is already fixed by
/// `spec_parse_ranges`: the tokens' expansions concatenated left to
/// right).
pub proof fn lemma_expression_preserves_tokens(s: Seq<char>, i: int)
    requires
        spec_parse_ranges(s) is Ok,
        0 <= i < split_commas(s).len(),
    ensures
        spec_parse_range(split_commas(s)[i]) is Ok,
        forall|v: u32|
            spec_parse_range(split_commas(s)[i])->Ok_0.contains(v) ==> spec_parse_ranges(
                s,
            )->Ok_0.contains(v),
{
    lemma_flatten_preserves(split_commas(s), i);
}

/// Law: a token that is a bare decimal numeral whose value fits a `u32`
/// parses to the one-element list holding that value.
pub proof fn lemma_single_number_token(s: Seq<char>)
    requires
        is_number_str(s),
        dec_val(s) <= u32::MAX,
    ensures
        spec_parse_range(s) == Ok::<Seq<u32>, RangeError>(seq![(dec_val(s) as u32)]),
{
    assert forall|j: int| 0 <= j < s.len() implies s[j] != '-' by {
        assert(is_digit(s[j]));
    }
    lemma_index_of_first_none(s, '-');
}

/// Law: a range token whose lower bound exceeds its upper bound fails with
/// `BoundariesError`, whatever the two numerals are.
pub proof fn lemma_inverted_range_token(a: Seq<char>, b: Seq<char>)
    requires
        is_number_str(a),
        is_number_str(b),
        dec_val(a) <= u32::MAX,
        dec_val(b) <= u32::MAX,
        dec_val(a) > dec_val(b),
    ensures
        spec_parse_range(a + seq!['-'] + b) == Err::<Seq<u32>, RangeError>(
            RangeError::BoundariesError,
        ),
{
    let s = a + seq!['-'] + b;
    assert(s[a.len() as int] == '-');
    assert forall|j: int| 0 <= j < a.len() implies s[j] != '-' by {
        assert(s[j] == a[j]);
        assert(is_digit(a[j]));
    }
    lemma_index_of_first_is(s, '-', a.len() as int);
    assert(s.take(a.len() as int) =~= a);
    assert(s.skip(a.len() as int + 1) =~= b);
}

/// Law: a token holding a character that is neither a digit nor the range
/// dash fails with `ParseIntError`.
pub proof fn lemma_foreign_char_token(s: Seq<char>, i: int)
    requires
        0 <= i < s.len(),
        !is_digit(s[i]),
        s[i] != '-',
    ensures
        spec_parse_range(s) == Err::<Seq<u32>, RangeError>(RangeError::ParseIntError),
{
    s.index_of_first_ensures('-');
    match s.index_of_first('-') {
        None => {
            assert(!is_number_str(s));
        },
        Some(k) => {
            let a = s.take(k);
            let b = s.skip(k + 1);
            if i < k {
                assert(a[i] == s[i]);
                assert(!is_number_str(a));
            } else {
                assert(i > k);
                if spec_parse_u32(a) is Ok {
                    assert(b[i - (k + 1)] == s[i]);
                    assert(!is_number_str(b));
                }
            }
        },
    }
}

/// Law: a token that begins with the range dash — in particular a numeral
/// with a negative sign — fails with `ParseIntError`.
pub proof fn lemma_leading_dash_token(s: Seq<char>)
    requires
        0 < s.len(),
        s[0] == '-',
    ensures
        spec_parse_range(s) == Err::<Seq<u32>, RangeError>(RangeError::ParseIntError),
{
    lemma_index_of_first_is(s, '-', 0);
    assert(s.take(0) =~= Seq::<char>::empty());
    assert(!is_number_str(s.take(0)));
}

} // verus!
