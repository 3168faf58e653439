//! The transform matrix: four signed integer coefficients of the linear
//! map, parsed from a comma-separated 4-tuple of decimal integers.

use vstd::prelude::*;

verus! {

use vstd::string::StringSliceAdditionalSpecFns;

/// The immutable coefficients `(a, b, c, d)` of the toral map. No range
/// restriction is enforced beyond the `i64` limits; a matrix is reused
/// unchanged across all iterations of a run.
#[derive(Clone, Copy, PartialEq, Eq, Structural, Debug)]
pub struct Matrix {
    pub a: i64,
    pub b: i64,
    pub c: i64,
    pub d: i64,
}

/// Construction-time failure of a matrix: wrong field count or a field
/// that is not an integer in range.
#[derive(Clone, Copy, PartialEq, Eq, Structural, Debug)]
pub enum MatrixError {
    MalformedMatrix,
}

/// An ASCII decimal digit.
pub open spec fn is_digit(b: u8) -> bool {
    48 <= b <= 57
}

/// Value of a digit string, most significant digit first.
pub open spec fn digits_val(s: Seq<u8>) -> int
    decreases s.len(),
{
    if s.len() == 0 {
        0
    } else {
        digits_val(s.drop_last()) * 10 + (s.last() - 48)
    }
}

/// The digits of a token, after an optional leading sign.
pub open spec fn token_body(s: Seq<u8>) -> Seq<u8> {
    if s.len() > 0 && (s[0] == 43 || s[0] == 45) {
        s.skip(1)
    } else {
        s
    }
}

/// `-1` for a token with a leading minus, `1` otherwise.
pub open spec fn token_sign(s: Seq<u8>) -> int {
    if s.len() > 0 && s[0] == 45 {
        -1
    } else {
        1
    }
}

/// A signed decimal integer as the host's string-to-integer conversion
/// accepts it: an optional `+` or `-`, then one or more digits and nothing
/// else.
pub open spec fn is_int_token(s: Seq<u8>) -> bool {
    &&& token_body(s).len() > 0
    &&& forall|i: int| 0 <= i < token_body(s).len() ==> is_digit(#[trigger] token_body(s)[i])
}

/// The signed value of an integer token.
pub open spec fn token_val(s: Seq<u8>) -> int {
    token_sign(s) * digits_val(token_body(s))
}

/// A token that parses as an `i64`: well-formed and in range.
pub open spec fn token_ok(s: Seq<u8>) -> bool {
    is_int_token(s) && i64::MIN <= token_val(s) <= i64::MAX
}

/// The comma-separated fields of a byte string. A string without commas is
/// one field; every comma ends the field before it, so trailing or doubled
/// commas yield empty fields.
pub open spec fn fields(s: Seq<u8>) -> Seq<Seq<u8>>
    decreases s.len(),
{
    if s.len() == 0 {
        seq![s]
    } else if s.last() == 44 {
        fields(s.drop_last()).push(Seq::empty())
    } else {
        let r = fields(s.drop_last());
        r.update(r.len() - 1, r.last().push(s.last()))
    }
}

/// What parsing a matrix from bytes yields: the four coefficients when the
/// string has exactly four comma-separated integer fields in `i64` range,
/// nothing otherwise.
pub open spec fn spec_parse_matrix(s: Seq<u8>) -> Option<Matrix> {
    let fs = fields(s);
    if fs.len() == 4 && token_ok(fs[0]) && token_ok(fs[1]) && token_ok(fs[2])
        && token_ok(fs[3]) {
        Some(Matrix {
            a: token_val(fs[0]) as i64,
            b: token_val(fs[1]) as i64,
            c: token_val(fs[2]) as i64,
            d: token_val(fs[3]) as i64,
        })
    } else {
        None
    }
}

/// A byte string always has at least one field.
proof fn lemma_fields_nonempty(s: Seq<u8>)
    ensures
        fields(s).len() >= 1,
    decreases s.len(),
{
    if s.len() > 0 {
        lemma_fields_nonempty(s.drop_last());
    }
}

/// Reading on from position `i` never removes a field, and never changes a
/// field other than the last one seen so far.
proof fn lemma_fields_prefix(s: Seq<u8>, i: int)
    requires
        0 <= i <= s.len(),
    ensures
        fields(s).len() >= fields(s.take(i)).len(),
        forall|q: int| 0 <= q < fields(s.take(i)).len() - 1
            ==> #[trigger] fields(s)[q] == fields(s.take(i))[q],
    decreases s.len() - i,
{
    lemma_fields_nonempty(s.take(i));
    if i == s.len() {
        assert(s.take(i) =~= s);
    } else {
        lemma_fields_prefix(s, i + 1);
        let t0 = s.take(i);
        let t1 = s.take(i + 1);
        assert(t1 =~= t0.push(s[i]));
        assert(t1.drop_last() =~= t0);
        lemma_fields_nonempty(t0);
        if s[i] == 44 {
            assert(fields(t1) == fields(t0).push(Seq::empty()));
        } else {
            assert(fields(t1) == fields(t0).update(fields(t0).len() - 1,
                fields(t0).last().push(s[i])));
        }
    }
}

/// A digit string's value is non-negative.
proof fn lemma_digits_val_nonneg(t: Seq<u8>)
    requires
        forall|q: int| 0 <= q < t.len() ==> is_digit(#[trigger] t[q]),
    ensures
        digits_val(t) >= 0,
    decreases t.len(),
{
    if t.len() > 0 {
        lemma_digits_val_nonneg(t.drop_last());
    }
}

/// Reading more digits never shrinks the value.
proof fn lemma_digits_val_mono(t: Seq<u8>, i: int)
    requires
        0 <= i <= t.len(),
        forall|q: int| 0 <= q < t.len() ==> is_digit(#[trigger] t[q]),
    ensures
        digits_val(t) >= digits_val(t.take(i)) >= 0,
    decreases t.len() - i,
{
    assert forall|q: int| 0 <= q < t.take(i).len() implies is_digit(#[trigger] t.take(i)[q]) by {}
    lemma_digits_val_nonneg(t.take(i));
    if i == t.len() {
        assert(t.take(i) =~= t);
    } else {
        lemma_digits_val_mono(t, i + 1);
        assert(t.take(i + 1).drop_last() =~= t.take(i));
        assert(digits_val(t.take(i + 1)) == digits_val(t.take(i)) * 10 + (t[i] - 48));
    }
}

/// Parses the token in `bytes[lo..hi]` as a signed 64-bit integer.
fn parse_token(bytes: &[u8], lo: usize, hi: usize) -> (r: Option<i64>)
    requires
        lo <= hi <= bytes@.len(),
    ensures
        r is Some <==> token_ok(bytes@.subrange(lo as int, hi as int)),
        r is Some ==> r.unwrap() == token_val(bytes@.subrange(lo as int, hi as int)),
{
    let ghost tok = bytes@.subrange(lo as int, hi as int);
    let mut j = lo;
    let mut neg = false;
    if j < hi && (bytes[j] == 43 || bytes[j] == 45) {
        neg = bytes[j] == 45;
        j = j + 1;
        proof {
            assert(token_body(tok) =~= bytes@.subrange(j as int, hi as int));
        }
    } else {
        proof {
            assert(token_body(tok) =~= bytes@.subrange(j as int, hi as int));
        }
    }
    let ghost bstart = j as int;
    if j == hi {
        // No digits at all.
        return None;
    }
    let mut mag: u64 = 0;
    proof {
        assert(bytes@.subrange(bstart, bstart) =~= Seq::<u8>::empty());
    }
    while j < hi
        invariant
            lo <= hi <= bytes@.len(),
            bstart <= j <= hi,
            0 <= bstart,
            tok == bytes@.subrange(lo as int, hi as int),
            token_body(tok) == bytes@.subrange(bstart, hi as int),
            token_sign(tok) == (if neg { -1int } else { 1int }),
            bstart < hi,
            mag == digits_val(bytes@.subrange(bstart, j as int)),
            forall|q: int| bstart <= q < j ==> is_digit(#[trigger] bytes@[q]),
        decreases hi - j,
    {
        let b = bytes[j];
        if b < 48 || b > 57 {
            // A non-digit inside the body: not an integer token.
            assert(token_body(tok)[j - bstart] == bytes@[j as int]);
            return None;
        }
        let d = (b - 48) as u64;
        let ghost pre = bytes@.subrange(bstart, j as int);
        proof {
            assert(bytes@.subrange(bstart, j + 1).drop_last() =~= pre);
            assert(bytes@.subrange(bstart, j + 1).last() == bytes@[j as int]);
        }
        let stepped = match mag.checked_mul(10) {
            Some(m0) => m0.checked_add(d),
            None => None,
        };
        match stepped {
            Some(m1) => {
                mag = m1;
            },
            None => {
                // The value no longer fits in 64 bits unsigned, so it can
                // never fit in `i64` either, whatever follows.
                proof {
                    if is_int_token(tok) {
                        lemma_digits_val_mono(token_body(tok), j + 1 - bstart);
                        assert(token_body(tok).take(j + 1 - bstart)
                            =~= bytes@.subrange(bstart, j + 1));
                        assert(digits_val(bytes@.subrange(bstart, j + 1))
                            == mag * 10 + (bytes@[j as int] - 48));
                    }
                }
                return None;
            },
        }
        j = j + 1;
    }
    assert(bytes@.subrange(bstart, j as int) == token_body(tok));
    assert(is_int_token(tok));
    if neg {
        if mag > 0x8000_0000_0000_0000u64 {
            None
        } else if mag == 0x8000_0000_0000_0000u64 {
            Some(i64::MIN)
        } else {
            Some(-(mag as i64))
        }
    } else {
        if mag > 0x7FFF_FFFF_FFFF_FFFFu64 {
            None
        } else {
            Some(mag as i64)
        }
    }
}

impl Matrix {
    /// Parses `a,b,c,d` from raw bytes: exactly four comma-separated
    /// signed decimal integers, each within the 64-bit signed range;
    /// anything else is a `MalformedMatrix` failure.
    pub fn parse_bytes(bytes: &[u8]) -> (r: Result<Matrix, MatrixError>)
        ensures
            r is Ok <==> spec_parse_matrix(bytes@) is Some,
            r is Ok ==> r.unwrap() == spec_parse_matrix(bytes@).unwrap(),
            r is Err ==> r == Err::<Matrix, MatrixError>(MatrixError::MalformedMatrix),
    {
        let n = bytes.len();
        let mut done: Vec<i64> = Vec::new();
        let mut start: usize = 0;
        let mut i: usize = 0;
        proof {
            assert(bytes@.take(0) =~= Seq::<u8>::empty());
            assert(bytes@.subrange(0, 0) =~= Seq::<u8>::empty());
        }
        while i < n
            invariant
                n == bytes@.len(),
                start <= i <= n,
                done@.len() <= 3,
                fields(bytes@.take(i as int)).len() == done@.len() + 1,
                forall|q: int| 0 <= q < done@.len()
                    ==> token_ok(#[trigger] fields(bytes@.take(i as int))[q])
                        && done@[q] == token_val(fields(bytes@.take(i as int))[q]),
                fields(bytes@.take(i as int)).last()
                    == bytes@.subrange(start as int, i as int),
            decreases n - i,
        {
            let ghost t0 = bytes@.take(i as int);
            let ghost t1 = bytes@.take(i + 1);
            proof {
                assert(t1 =~= t0.push(bytes@[i as int]));
                assert(t1.drop_last() =~= t0);
                lemma_fields_nonempty(t0);
            }
            if bytes[i] == 44 {
                proof {
                    assert(fields(t1) == fields(t0).push(Seq::empty()));
                }
                if done.len() == 3 {
                    // A fifth field begins: the count can only grow.
                    proof {
                        lemma_fields_prefix(bytes@, i + 1);
                        assert(fields(bytes@).len() >= 5);
                    }
                    return Err(MatrixError::MalformedMatrix);
                }
                match parse_token(bytes, start, i) {
                    Some(v) => {
                        done.push(v);
                        proof {
                            assert(fields(t1).last() =~= bytes@.subrange(i + 1, i + 1));
                        }
                    },
                    None => {
                        // This completed field is not an integer token, and
                        // later input can no longer change it.
                        proof {
                            let q0 = done@.len() as int;
                            lemma_fields_prefix(bytes@, i + 1);
                            assert(fields(t1)[q0] == fields(t0)[q0]);
                            assert(fields(bytes@)[q0] == fields(t0).last());
                            assert(!token_ok(fields(bytes@)[q0]));
                        }
                        return Err(MatrixError::MalformedMatrix);
                    },
                }
                start = i + 1;
            } else {
                proof {
                    assert(fields(t1) == fields(t0).update(fields(t0).len() - 1,
                        fields(t0).last().push(bytes@[i as int])));
                    assert(fields(t1).last()
                        =~= bytes@.subrange(start as int, i + 1));
                }
            }
            i = i + 1;
        }
        proof {
            assert(bytes@.take(n as int) =~= bytes@);
        }
        if done.len() != 3 {
            return Err(MatrixError::MalformedMatrix);
        }
        match parse_token(bytes, start, n) {
            Some(v) => {
                let m = Matrix { a: done[0], b: done[1], c: done[2], d: v };
                proof {
                    assert(fields(bytes@)[3] == fields(bytes@).last());
                }
                Ok(m)
            },
            None => {
                proof {
                    assert(fields(bytes@)[3] == fields(bytes@).last());
                }
                Err(MatrixError::MalformedMatrix)
            },
        }
    }

    /// Parses `a,b,c,d` from a string slice.
    pub fn parse(s: &str) -> (r: Result<Matrix, MatrixError>)
        ensures
            r is Ok <==> spec_parse_matrix(s.spec_bytes()) is Some,
            r is Ok ==> r.unwrap() == spec_parse_matrix(s.spec_bytes()).unwrap(),
            r is Err ==> r == Err::<Matrix, MatrixError>(MatrixError::MalformedMatrix),
    {
        Matrix::parse_bytes(s.as_bytes())
    }
}

} // verus!
