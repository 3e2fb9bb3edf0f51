use vstd::prelude::*;

use crate::token::CalcError;
use crate::token::Token;

verus! {

/// Splitting a character sequence on the single-space character. Splitting
/// never yields zero pieces: an empty input gives one empty piece, and every
/// space adds a piece, so consecutive spaces give empty pieces.
pub open spec fn spec_split(s: Seq<char>) -> Seq<Seq<char>>
    decreases s.len(),
{
    if s.len() == 0 {
        seq![Seq::<char>::empty()]
    } else if s[0] == ' ' {
        seq![Seq::<char>::empty()] + spec_split(s.skip(1))
    } else {
        let rest = spec_split(s.skip(1));
        seq![seq![s[0]] + rest[0]] + rest.skip(1)
    }
}

/// `ss` with `pre` prepended to its first piece.
spec fn cons_first(pre: Seq<char>, ss: Seq<Seq<char>>) -> Seq<Seq<char>>
    recommends
        ss.len() >= 1,
{
    seq![pre + ss[0]] + ss.skip(1)
}

proof fn lemma_spec_split_nonempty(s: Seq<char>)
    ensures
        spec_split(s).len() >= 1,
    decreases s.len(),
{
    if s.len() == 0 {
    } else if s[0] == ' ' {
    } else {
        lemma_spec_split_nonempty(s.skip(1));
    }
}

proof fn lemma_cons_first_empty(ss: Seq<Seq<char>>)
    requires
        ss.len() >= 1,
    ensures
        cons_first(Seq::<char>::empty(), ss) == ss,
{
    assert(Seq::<char>::empty() + ss[0] =~= ss[0]);
    assert(seq![ss[0]] + ss.skip(1) =~= ss);
}

/// A decimal digit.
pub open spec fn is_digit(c: char) -> bool {
    '0' as u32 <= c as u32 <= '9' as u32
}

/// The numeric value of a decimal digit.
pub open spec fn digit_value(c: char) -> int
    recommends
        is_digit(c),
{
    c as u32 - '0' as u32
}

pub open spec fn all_digits(s: Seq<char>) -> bool {
    forall|i: int| 0 <= i < s.len() ==> is_digit(#[trigger] s[i])
}

/// The nonnegative value of a run of decimal digits, most significant first.
pub open spec fn digits_value(s: Seq<char>) -> int
    recommends
        all_digits(s),
    decreases s.len(),
{
    if s.len() == 0 {
        0
    } else {
        10 * digits_value(s.drop_last()) + digit_value(s.last())
    }
}

/// A valid signed base-10 `i64` literal: an optional leading `-`, then one
/// or more digits, and a value within the `i64` range. No `+` prefix, no
/// surrounding whitespace, no separators.
pub open spec fn is_int_literal(s: Seq<char>) -> bool {
    if s.len() > 0 && s[0] == '-' {
        let d = s.skip(1);
        d.len() > 0 && all_digits(d) && -digits_value(d) >= i64::MIN
    } else {
        s.len() > 0 && all_digits(s) && digits_value(s) <= i64::MAX
    }
}

/// The value of a valid signed integer literal.
pub open spec fn int_literal_value(s: Seq<char>) -> int
    recommends
        is_int_literal(s),
{
    if s.len() > 0 && s[0] == '-' {
        -digits_value(s.skip(1))
    } else {
        digits_value(s)
    }
}

/// Classification of one space-delimited piece: exactly `+`, exactly `%`, or
/// a valid signed integer literal; anything else (an empty piece included)
/// is no token.
pub open spec fn spec_piece_token(p: Seq<char>) -> Option<Token> {
    if p.len() == 1 && p[0] == '+' {
        Some(Token::Plus)
    } else if p.len() == 1 && p[0] == '%' {
        Some(Token::Mod)
    } else if is_int_literal(p) {
        Some(Token::Number(int_literal_value(p) as i64))
    } else {
        None
    }
}

/// What `tokenize` returns: the input split on single spaces, each piece
/// classified in order; one unclassifiable piece fails the whole input.
pub open spec fn spec_tokenize(s: Seq<char>) -> Result<Seq<Token>, CalcError> {
    let ps = spec_split(s);
    if forall|i: int| 0 <= i < ps.len() ==> (#[trigger] spec_piece_token(ps[i])) is Some {
        Ok(Seq::new(ps.len(), |i: int| spec_piece_token(ps[i])->Some_0))
    } else {
        Err(CalcError::TokenizeError)
    }
}

proof fn lemma_digits_value_nonneg(s: Seq<char>)
    requires
        all_digits(s),
    ensures
        digits_value(s) >= 0,
    decreases s.len(),
{
    if s.len() > 0 {
        assert(all_digits(s.drop_last()));
        lemma_digits_value_nonneg(s.drop_last());
    }
}

/// Extending a digit run by one digit multiplies its value by ten and adds
/// the digit.
proof fn lemma_digits_value_step(s: Seq<char>, k: int)
    requires
        0 <= k < s.len(),
    ensures
        digits_value(s.take(k + 1)) == 10 * digits_value(s.take(k)) + digit_value(s[k]),
{
    assert(s.take(k + 1).drop_last() =~= s.take(k));
    assert(s.take(k + 1).last() == s[k]);
}

/// A digit run is worth at least any of its prefixes.
proof fn lemma_digits_value_prefix_le(s: Seq<char>, k: int)
    requires
        all_digits(s),
        0 <= k <= s.len(),
    ensures
        digits_value(s.take(k)) <= digits_value(s),
    decreases s.len() - k,
{
    if k == s.len() {
        assert(s.take(k) =~= s);
    } else {
        assert(all_digits(s.take(k)));
        lemma_digits_value_nonneg(s.take(k));
        lemma_digits_value_step(s, k);
        lemma_digits_value_prefix_le(s, k + 1);
    }
}

/// If the digits read so far are worth more than the largest representable
/// magnitude, the whole piece is no valid literal.
proof fn lemma_literal_overflow(
    p: Seq<char>,
    digits: Seq<char>,
    j: int,
    start: int,
    mag: u64,
    d: u64,
    limit: u64,
)
    requires
        0 <= start <= j < p.len(),
        start == 1 ==> p[0] == '-',
        start == 0 ==> p[0] != '-',
        start == 0 || start == 1,
        limit == (if start == 1 {
            9223372036854775808u64
        } else {
            9223372036854775807u64
        }),
        digits == p.skip(start),
        all_digits(digits.take(j - start)),
        mag == digits_value(digits.take(j - start)),
        is_digit(p[j]),
        d == digit_value(p[j]),
        10 * mag + d > limit,
    ensures
        !is_int_literal(p),
{
    if is_int_literal(p) {
        assert(digits[j - start] == p[j]);
        if start == 1 {
            assert(all_digits(digits));
        } else {
            assert(p[0] != '-');
            assert(all_digits(digits.take(j - start)) && digits.take(j - start) =~= p.take(j));
            assert(digits =~= p);
            assert(all_digits(digits));
        }
        lemma_digits_value_step(digits, j - start);
        lemma_digits_value_prefix_le(digits, j - start + 1);
        assert(digits_value(digits) >= 10 * mag + d);
        assert(digits_value(digits) > limit);
        if start == 1 {
            assert(-digits_value(digits) < i64::MIN);
        } else {
            assert(digits_value(p) > i64::MAX);
        }
        assert(false);
    }
}

/// Parse one piece as a signed base-10 `i64` literal: `Some` exactly on the
/// valid literals, carrying the literal's value.
fn parse_i64(piece: &Vec<char>) -> (r: Option<i64>)
    ensures
        r is Some <==> is_int_literal(piece@),
        (match r {
            Some(v) => v as int == int_literal_value(piece@),
            None => true,
        }),
{
    let n = piece.len();
    let neg = n > 0 && piece[0] == '-';
    let start: usize = if neg {
        1
    } else {
        0
    };
    if n == start {
        // empty piece, or a bare minus sign
        return None;
    }
    let ghost digits = piece@.skip(start as int);
    // largest magnitude of an i64: 2^63 for a negative literal, 2^63 - 1 otherwise
    let limit: u64 = if neg {
        9223372036854775808u64
    } else {
        9223372036854775807u64
    };
    let mut mag: u64 = 0;
    let mut j: usize = start;
    proof {
        assert(digits.take(0) =~= Seq::<char>::empty());
    }
    while j < n
        invariant
            n == piece@.len(),
            start <= j <= n,
            start < n,
            start == 1 ==> piece@[0] == '-',
            start == 0 ==> piece@[0] != '-',
            start == 0 || start == 1,
            neg <==> (start == 1),
            limit == (if neg {
                9223372036854775808u64
            } else {
                9223372036854775807u64
            }),
            digits == piece@.skip(start as int),
            all_digits(digits.take(j - start)),
            mag == digits_value(digits.take(j - start)),
            mag <= limit,
        decreases n - j,
    {
        let c = piece[j];
        let cu: u32 = c as u32;
        proof {
            assert(digits[j - start] == piece@[j as int]);
        }
        if cu < 48 || cu > 57 {
            // a non-digit character: the piece is no integer literal
            proof {
                assert(!is_digit(piece@[j as int]));
                assert(!all_digits(digits));
            }
            return None;
        }
        let d: u64 = (cu - 48) as u64;
        proof {
            assert(c == piece@[j as int]);
            assert(is_digit(piece@[j as int]));
            assert(d == digit_value(piece@[j as int]));
            assert(digits.take(j - start + 1).drop_last() =~= digits.take(j - start));
            assert(digits.take(j - start + 1).last() == digits[j - start]);
            assert(all_digits(digits.take(j - start + 1)));
        }
        if mag > 922337203685477580u64 {
            // ten times this magnitude already exceeds any i64 magnitude
            proof {
                lemma_literal_overflow(piece@, digits, j as int, start as int, mag, d, limit);
            }
            return None;
        }
        let next: u64 = mag * 10 + d;
        if next > limit {
            proof {
                lemma_literal_overflow(piece@, digits, j as int, start as int, mag, d, limit);
            }
            return None;
        }
        mag = next;
        j += 1;
    }
    proof {
        assert(digits.take(n - start) =~= digits);
        if neg {
            assert(is_int_literal(piece@));
        } else {
            assert(piece@[0] != '-');
            assert(digits =~= piece@);
            assert(is_int_literal(piece@));
        }
    }
    if neg {
        if mag == 9223372036854775808u64 {
            Some(i64::MIN)
        } else {
            Some(-(mag as i64))
        }
    } else {
        Some(mag as i64)
    }
}

/// Split the input on the single-space character, keeping empty pieces.
fn split_chars(s: &str) -> (pieces: Vec<Vec<char>>)
    ensures
        pieces@.map_values(|p: Vec<char>| p@) == spec_split(s@),
{
    let n = s.unicode_len();
    let mut pieces: Vec<Vec<char>> = Vec::new();
    let mut cur: Vec<char> = Vec::new();
    let mut i: usize = 0;
    proof {
        lemma_spec_split_nonempty(s@);
        assert(s@.skip(0) =~= s@);
        lemma_cons_first_empty(spec_split(s@));
        assert(pieces@.map_values(|p: Vec<char>| p@) =~= Seq::<Seq<char>>::empty());
    }
    while i < n
        invariant
            n == s@.len(),
            i <= n,
            spec_split(s@) == pieces@.map_values(|p: Vec<char>| p@) + cons_first(
                cur@,
                spec_split(s@.skip(i as int)),
            ),
            spec_split(s@.skip(i as int)).len() >= 1,
        decreases n - i,
    {
        let ghost rem = s@.skip(i as int);
        let ghost rem2 = s@.skip(i as int + 1);
        proof {
            assert(rem[0] == s@[i as int]);
            assert(rem.skip(1) =~= rem2);
            lemma_spec_split_nonempty(rem2);
        }
        let c = s.get_char(i);
        if c == ' ' {
            proof {
                assert(spec_split(rem) == seq![Seq::<char>::empty()] + spec_split(rem2));
                assert((seq![Seq::<char>::empty()] + spec_split(rem2))[0]
                    == Seq::<char>::empty());
                assert((seq![Seq::<char>::empty()] + spec_split(rem2)).skip(1) =~= spec_split(
                    rem2,
                ));
                assert(cur@ + Seq::<char>::empty() =~= cur@);
                lemma_cons_first_empty(spec_split(rem2));
                assert(cons_first(cur@, spec_split(rem)) =~= seq![cur@] + cons_first(
                    Seq::<char>::empty(),
                    spec_split(rem2),
                ));
                assert((pieces@.push(cur)).map_values(|p: Vec<char>| p@) =~= pieces@.map_values(
                    |p: Vec<char>| p@,
                ).push(cur@));
                assert(pieces@.map_values(|p: Vec<char>| p@).push(cur@) =~= pieces@.map_values(
                    |p: Vec<char>| p@,
                ) + seq![cur@]);
            }
            pieces.push(cur);
            cur = Vec::new();
        } else {
            let ghost rest = spec_split(rem2);
            proof {
                assert(spec_split(rem) == seq![seq![rem[0]] + rest[0]] + rest.skip(1));
                assert((seq![seq![c] + rest[0]] + rest.skip(1))[0] == seq![c] + rest[0]);
                assert((seq![seq![c] + rest[0]] + rest.skip(1)).skip(1) =~= rest.skip(1));
                assert(cur@ + (seq![c] + rest[0]) =~= cur@.push(c) + rest[0]);
                assert(cons_first(cur@, spec_split(rem)) =~= cons_first(cur@.push(c), rest));
            }
            cur.push(c);
        }
        i += 1;
    }
    proof {
        assert(s@.skip(n as int) =~= Seq::<char>::empty());
        assert(spec_split(Seq::<char>::empty()) == seq![Seq::<char>::empty()]);
        assert(cons_first(cur@, seq![Seq::<char>::empty()]) =~= seq![cur@]);
        assert(cur@ + Seq::<char>::empty() =~= cur@);
        assert((pieces@.push(cur)).map_values(|p: Vec<char>| p@) =~= pieces@.map_values(
            |p: Vec<char>| p@,
        ) + seq![cur@]);
    }
    pieces.push(cur);
    pieces
}

/// Classify one space-delimited piece.
fn piece_token(piece: &Vec<char>) -> (t: Option<Token>)
    ensures
        t == spec_piece_token(piece@),
{
    if piece.len() == 1 {
        let c = piece[0];
        if c == '+' {
            return Some(Token::Plus);
        }
        if c == '%' {
            return Some(Token::Mod);
        }
    }
    match parse_i64(piece) {
        Some(v) => Some(Token::Number(v)),
        None => None,
    }
}

/// Split the input on single spaces and classify each piece, in order. The
/// result is exactly `spec_tokenize` of the input, error included.
pub fn tokenize(s: &str) -> (r: Result<Vec<Token>, CalcError>)
    ensures
        (match r {
            Ok(ts) => spec_tokenize(s@) == Ok::<Seq<Token>, CalcError>(ts@),
            Err(e) => spec_tokenize(s@) == Err::<Seq<Token>, CalcError>(e),
        }),
{
    let pieces = split_chars(s);
    let ghost ps = spec_split(s@);
    let mut tokens: Vec<Token> = Vec::new();
    let mut idx: usize = 0;
    while idx < pieces.len()
        invariant
            pieces@.map_values(|p: Vec<char>| p@) == ps,
            ps == spec_split(s@),
            idx <= pieces@.len(),
            forall|k: int| 0 <= k < idx ==> (#[trigger] spec_piece_token(ps[k])) is Some,
            tokens@ == Seq::new(idx as nat, |k: int| spec_piece_token(ps[k])->Some_0),
        decreases pieces@.len() - idx,
    {
        proof {
            assert(pieces@.map_values(|p: Vec<char>| p@)[idx as int] == pieces@[idx as int]@);
        }
        match piece_token(&pieces[idx]) {
            Some(t) => {
                tokens.push(t);
                proof {
                    assert(tokens@ =~= Seq::new(
                        (idx + 1) as nat,
                        |k: int| spec_piece_token(ps[k])->Some_0,
                    ));
                }
            },
            None => {
                proof {
                    assert(spec_piece_token(ps[idx as int]) is None);
                }
                return Err(CalcError::TokenizeError);
            },
        }
        idx += 1;
    }
    proof {
        assert(tokens@ =~= Seq::new(ps.len(), |k: int| spec_piece_token(ps[k])->Some_0));
    }
    Ok(tokens)
}



} // verus!
