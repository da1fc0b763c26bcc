//! Parsing of whitespace-delimited unsigned decimal numerals from a line
//! of input bytes: the line is split on a delimiter byte, empty fields are
//! skipped, and every remaining field must be a numeral that fits in
//! `usize`.

use vstd::prelude::*;

verus! {

/// A field is not an unsigned decimal numeral that fits in `usize`, or a
/// line does not have the expected number of fields.
#[derive(Clone, Copy, PartialEq, Eq, Structural, Debug)]
pub enum ParseError {
    BadNumber,
    WrongFieldCount,
}

pub open spec fn is_digit(b: u8) -> bool {
    48 <= b <= 57
}

/// The length of the field starting at the head of `s`.
pub open spec fn token_len(s: Seq<u8>, d: u8) -> int
    decreases s.len(),
{
    if s.len() == 0 || s[0] == d {
        0
    } else {
        1 + token_len(s.subrange(1, s.len() as int), d)
    }
}

pub proof fn lemma_token_len_bounds(s: Seq<u8>, d: u8)
    ensures
        0 <= token_len(s, d) <= s.len(),
        s.len() > 0 && s[0] != d ==> token_len(s, d) >= 1,
    decreases s.len(),
{
    if s.len() > 0 && s[0] != d {
        lemma_token_len_bounds(s.subrange(1, s.len() as int), d);
    }
}

/// The exact length of the head field: the bytes before `m` differ from
/// the delimiter and position `m` is the end of the line or a delimiter.
pub proof fn lemma_token_len_is(s: Seq<u8>, d: u8, m: int)
    requires
        0 <= m <= s.len(),
        forall|k: int| 0 <= k < m ==> s[k] != d,
        m == s.len() || s[m] == d,
    ensures
        token_len(s, d) == m,
    decreases s.len(),
{
    if m == 0 {
    } else {
        let t = s.subrange(1, s.len() as int);
        assert forall|k: int| 0 <= k < m - 1 implies t[k] != d by {
            assert(t[k] == s[k + 1]);
        }
        if m - 1 < t.len() {
            assert(t[m - 1] == s[m]);
        }
        lemma_token_len_is(t, d, m - 1);
    }
}

/// The non-empty fields of `s`, split on the delimiter `d`.
pub open spec fn fields(s: Seq<u8>, d: u8) -> Seq<Seq<u8>>
    decreases s.len(),
    via fields_decreases
{
    if s.len() == 0 {
        Seq::empty()
    } else if s[0] == d {
        fields(s.subrange(1, s.len() as int), d)
    } else {
        seq![s.subrange(0, token_len(s, d))] + fields(
            s.subrange(token_len(s, d), s.len() as int),
            d,
        )
    }
}

#[via_fn]
proof fn fields_decreases(s: Seq<u8>, d: u8) {
    lemma_token_len_bounds(s, d);
}

/// The value of a numeral, most significant digit first.
pub open spec fn num_of(t: Seq<u8>) -> int
    decreases t.len(),
{
    if t.len() == 0 {
        0
    } else {
        num_of(t.drop_last()) * 10 + (t.last() - 48)
    }
}

pub open spec fn all_digits(t: Seq<u8>) -> bool {
    forall|i: int| 0 <= i < t.len() ==> is_digit(#[trigger] t[i])
}

/// A field that parses: all digits, and a value that fits in `usize`.
pub open spec fn good_token(t: Seq<u8>) -> bool {
    all_digits(t) && num_of(t) <= usize::MAX
}

/// Every field of the line parses.
pub open spec fn line_ok(s: Seq<u8>, d: u8) -> bool {
    forall|i: int| 0 <= i < fields(s, d).len() ==> good_token(#[trigger] fields(s, d)[i])
}

pub proof fn lemma_num_of_nonneg(t: Seq<u8>)
    requires
        all_digits(t),
    ensures
        num_of(t) >= 0,
    decreases t.len(),
{
    if t.len() > 0 {
        assert(all_digits(t.drop_last())) by {
            assert forall|i: int| 0 <= i < t.len() - 1 implies is_digit(
                #[trigger] t.drop_last()[i],
            ) by {
                assert(t.drop_last()[i] == t[i]);
            }
        }
        lemma_num_of_nonneg(t.drop_last());
    }
}

/// A numeral is at least as large as any of its prefixes.
pub proof fn lemma_num_of_prefix(t: Seq<u8>, m: int)
    requires
        all_digits(t),
        0 <= m <= t.len(),
    ensures
        num_of(t.subrange(0, m)) <= num_of(t),
    decreases t.len(),
{
    if m == t.len() {
        assert(t.subrange(0, m) =~= t);
    } else {
        assert(all_digits(t.drop_last())) by {
            assert forall|i: int| 0 <= i < t.len() - 1 implies is_digit(
                #[trigger] t.drop_last()[i],
            ) by {
                assert(t.drop_last()[i] == t[i]);
            }
        }
        assert(t.drop_last().subrange(0, m) =~= t.subrange(0, m));
        lemma_num_of_prefix(t.drop_last(), m);
        lemma_num_of_nonneg(t.drop_last());
        assert(num_of(t) == num_of(t.drop_last()) * 10 + (t.last() - 48));
        assert(num_of(t.drop_last()) * 10 >= num_of(t.drop_last())) by (nonlinear_arith)
            requires
                num_of(t.drop_last()) >= 0,
        ;
    }
}

/// Split a line of bytes on the delimiter and parse every non-empty field
/// as an unsigned decimal numeral. Returns the parsed values in order, or
/// an error exactly when some field is not a numeral fitting in `usize`.
pub fn read_line_vec(line: &Vec<u8>, splitpat: u8) -> (r: Result<Vec<usize>, ParseError>)
    ensures
        r is Ok <==> line_ok(line@, splitpat),
        r matches Ok(v) ==> v@.len() == fields(line@, splitpat).len() && forall|i: int|
            0 <= i < v@.len() ==> v@[i] == num_of(fields(line@, splitpat)[i]),
        r matches Err(e) ==> e == ParseError::BadNumber,
{
    let d = splitpat;
    let n = line.len();
    let ghost fseq = fields(line@, d);
    let mut out: Vec<usize> = Vec::new();
    let mut pos: usize = 0;
    proof {
        assert(line@.subrange(0, n as int) =~= line@);
        assert(fseq.subrange(0, fseq.len() as int) =~= fseq);
    }
    while pos < n
        invariant
            n == line@.len(),
            pos <= n,
            fseq == fields(line@, d),
            d == splitpat,
            fields(line@.subrange(pos as int, n as int), d) =~= fseq.subrange(
                out@.len() as int,
                fseq.len() as int,
            ),
            out@.len() <= fseq.len(),
            forall|i: int|
                0 <= i < out@.len() ==> good_token(#[trigger] fseq[i]) && out@[i] == num_of(
                    fseq[i],
                ),
        decreases n - pos,
    {
        let ghost rest = line@.subrange(pos as int, n as int);
        let b = line[pos];
        if b == d {
            pos += 1;
            proof {
                assert(rest[0] == d);
                assert(line@.subrange(pos as int, n as int) =~= rest.subrange(
                    1,
                    rest.len() as int,
                ));
            }
        } else {
            let start = pos;
            let mut val: usize = 0;
            let mut good = true;
            while pos < n && line[pos] != d
                invariant
                    n == line@.len(),
                    d == splitpat,
                    start <= pos <= n,
                    start < n,
                    forall|k: int| start <= k < pos ==> line@[k] != d,
                    good ==> all_digits(line@.subrange(start as int, pos as int)) && val == num_of(
                        line@.subrange(start as int, pos as int),
                    ),
                    !good ==> (exists|k: int|
                        start <= k < pos && !is_digit(#[trigger] line@[k])) || (all_digits(
                        line@.subrange(start as int, pos as int),
                    ) && num_of(line@.subrange(start as int, pos as int)) > usize::MAX),
                decreases n - pos,
            {
                let b2 = line[pos];
                let ghost tpre = line@.subrange(start as int, pos as int);
                let ghost tnow = line@.subrange(start as int, pos + 1);
                proof {
                    assert(tnow.drop_last() =~= tpre);
                    assert(tnow.last() == b2);
                    assert(num_of(tnow) == num_of(tpre) * 10 + (b2 - 48));
                }
                if b2 < 48 || b2 > 57 {
                    proof {
                        if good {
                        }
                    }
                    good = false;
                } else if good {
                    let dg = (b2 - 48) as usize;
                    if val > (usize::MAX - dg) / 10 {
                        proof {
                            assert(val * 10 + dg > usize::MAX) by (nonlinear_arith)
                                requires
                                    val > (usize::MAX - dg) / 10,
                                    0 <= dg <= 9,
                                    val >= 0,
                            ;
                            assert forall|i: int| 0 <= i < tnow.len() implies is_digit(
                                #[trigger] tnow[i],
                            ) by {
                                if i < tnow.len() - 1 {
                                    assert(tnow[i] == tpre[i]);
                                }
                            }
                        }
                        good = false;
                    } else {
                        proof {
                            assert(val * 10 + dg <= usize::MAX) by (nonlinear_arith)
                                requires
                                    val <= (usize::MAX - dg) / 10,
                                    0 <= dg <= 9,
                                    val >= 0,
                            ;
                            assert forall|i: int| 0 <= i < tnow.len() implies is_digit(
                                #[trigger] tnow[i],
                            ) by {
                                if i < tnow.len() - 1 {
                                    assert(tnow[i] == tpre[i]);
                                }
                            }
                        }
                        val = val * 10 + dg;
                    }
                } else {
                    proof {
                        if exists|k: int| start <= k < pos && !is_digit(#[trigger] line@[k]) {
                        } else {
                            assert(all_digits(tpre) && num_of(tpre) > usize::MAX);
                            assert forall|i: int| 0 <= i < tnow.len() implies is_digit(
                                #[trigger] tnow[i],
                            ) by {
                                if i < tnow.len() - 1 {
                                    assert(tnow[i] == tpre[i]);
                                }
                            }
                            lemma_num_of_nonneg(tpre);
                            assert(num_of(tnow) == num_of(tpre) * 10 + (b2 - 48));
                            assert(num_of(tpre) * 10 >= num_of(tpre)) by (nonlinear_arith)
                                requires
                                    num_of(tpre) >= 0,
                            ;
                        }
                    }
                }
                pos += 1;
            }
            let ghost token = line@.subrange(start as int, pos as int);
            proof {
                // the head field of the unread suffix is exactly `token`
                assert forall|k: int| 0 <= k < pos - start implies rest[k] != d by {
                    assert(rest[k] == line@[start + k]);
                }
                if pos < n {
                    assert(rest[pos - start] == line@[pos as int]);
                }
                lemma_token_len_is(rest, d, pos - start);
                assert(rest.subrange(0, pos - start) =~= token);
                assert(rest.subrange(pos - start, rest.len() as int) =~= line@.subrange(
                    pos as int,
                    n as int,
                ));
                assert(fields(rest, d) == seq![token] + fields(
                    line@.subrange(pos as int, n as int),
                    d,
                ));
                assert(fields(rest, d)[0] == token);
                assert(fields(rest, d).len() == 1 + fields(
                    line@.subrange(pos as int, n as int),
                    d,
                ).len());
                assert(out@.len() < fseq.len());
                assert(fseq.subrange(out@.len() as int, fseq.len() as int)[0] == token);
                assert(fseq[out@.len() as int] == token);
                assert forall|k: int|
                    0 <= k < fields(line@.subrange(pos as int, n as int), d).len() implies fields(
                    line@.subrange(pos as int, n as int),
                    d,
                )[k] == fseq[out@.len() + 1 + k] by {
                    assert(fields(rest, d)[k + 1] == fields(
                        line@.subrange(pos as int, n as int),
                        d,
                    )[k]);
                    assert(fseq.subrange(out@.len() as int, fseq.len() as int)[k + 1] == fseq[
                        out@.len() + 1 + k]);
                }
                assert(fields(line@.subrange(pos as int, n as int), d) =~= fseq.subrange(
                    out@.len() as int + 1,
                    fseq.len() as int,
                ));
            }
            if !good {
                proof {
                    if all_digits(token) {
                        if exists|k: int| start <= k < pos && !is_digit(#[trigger] line@[k]) {
                            let k = choose|k: int|
                                start <= k < pos && !is_digit(#[trigger] line@[k]);
                            assert(token[k - start] == line@[k]);
                            assert(false);
                        }
                        assert(num_of(token) > usize::MAX);
                    }
                    assert(!good_token(fseq[out@.len() as int]));
                }
                return Err(ParseError::BadNumber);
            }
            out.push(val);
        }
    }
    proof {
        assert(line@.subrange(pos as int, n as int) =~= Seq::<u8>::empty());
        assert(fields(line@.subrange(pos as int, n as int), d) =~= Seq::<Seq<u8>>::empty());
        assert(out@.len() == fseq.len());
    }
    Ok(out)
}

/// Parse the puzzle header line `R C N`: exactly three numbers.
pub fn parse_header(line: &Vec<u8>, splitpat: u8) -> (r: Result<(usize, usize, usize), ParseError>)
    ensures
        r is Ok <==> line_ok(line@, splitpat) && fields(line@, splitpat).len() == 3,
        r matches Ok(t) ==> t.0 == num_of(fields(line@, splitpat)[0]) && t.1 == num_of(
            fields(line@, splitpat)[1],
        ) && t.2 == num_of(fields(line@, splitpat)[2]),
        r matches Err(e) ==> (e == ParseError::BadNumber <==> !line_ok(line@, splitpat)),
{
    let v = match read_line_vec(line, splitpat) {
        Ok(v) => v,
        Err(e) => {
            return Err(e);
        },
    };
    if v.len() != 3 {
        return Err(ParseError::WrongFieldCount);
    }
    Ok((v[0], v[1], v[2]))
}

/// Parse one pair line `r1 c1 r2 c2`: exactly four numbers.
pub fn parse_pair_line(line: &Vec<u8>, splitpat: u8) -> (r: Result<
    (usize, usize, usize, usize),
    ParseError,
>)
    ensures
        r is Ok <==> line_ok(line@, splitpat) && fields(line@, splitpat).len() == 4,
        r matches Ok(t) ==> t.0 == num_of(fields(line@, splitpat)[0]) && t.1 == num_of(
            fields(line@, splitpat)[1],
        ) && t.2 == num_of(fields(line@, splitpat)[2]) && t.3 == num_of(
            fields(line@, splitpat)[3],
        ),
        r matches Err(e) ==> (e == ParseError::BadNumber <==> !line_ok(line@, splitpat)),
{
    let v = match read_line_vec(line, splitpat) {
        Ok(v) => v,
        Err(e) => {
            return Err(e);
        },
    };
    if v.len() != 4 {
        return Err(ParseError::WrongFieldCount);
    }
    Ok((v[0], v[1], v[2], v[3]))
}

} // verus!
