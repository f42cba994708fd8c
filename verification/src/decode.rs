//! Decoding of canonical ABI documents.
//!
//! Decoding is the exact inverse of the canonical encoding: it succeeds on
//! precisely the character sequences that `enc_abi` produces for some
//! representable ABI model, returns the unique document with that model,
//! and fails with a descriptive error on every other input.

use vstd::prelude::*;
use vstd::string::StrSliceExecFns;
use vstd::string::StringExecFns;

use crate::abi::{
    fits_abi, fits_inputs, fits_types, input_models, type_models, Abi, AbiInput, AbiModel,
    InputModel,
};
use crate::encode::{
    dec_digits, digit_char, enc_abi, enc_input, enc_inputs, enc_member, enc_members, enc_outputs,
    enc_ty, enc_ty_body, esc, esc_char, is_digit, kind_word, quoted,
};
use crate::encode::{lemma_esc_app, lemma_esc_one};
use crate::laws::{
    lemma_dec_digits_props, lemma_esc_first, lemma_input_at, lemma_member_at, lemma_number_det,
    lemma_prefix_first, lemma_prefix_parts, lemma_ty_body_array_at, lemma_ty_body_shape,
    lemma_ty_body_struct_at,
};
use crate::types::{
    fits_members, fits_ty, members_model, ConcreteArrayType, ConcreteStructMember,
    ConcreteStructType, ConcreteType, MemberModel, TypeModel,
};

verus! {

/// Why a document failed to decode.
#[derive(Debug, PartialEq, Eq, Clone, Copy)]
pub enum DecodeError {
    /// The document ended before the grammar was complete.
    UnexpectedEnd { at: usize },
    /// A fixed part of the grammar was not found where required.
    ExpectedToken { at: usize },
    /// The `type` discriminant is not one of the known kinds.
    UnknownKind { at: usize },
    /// A string holds a backslash escape other than a quote or a backslash.
    InvalidEscape { at: usize },
    /// An array size is not a canonical decimal number that fits.
    InvalidNumber { at: usize },
    /// Characters remain after the end of the document.
    TrailingCharacters { at: usize },
}

impl DecodeError {
    /// The position, in characters, at which decoding failed.
    pub fn position(&self) -> (r: usize)
        ensures
            *self matches DecodeError::UnexpectedEnd { at } ==> r == at,
            *self matches DecodeError::ExpectedToken { at } ==> r == at,
            *self matches DecodeError::UnknownKind { at } ==> r == at,
            *self matches DecodeError::InvalidEscape { at } ==> r == at,
            *self matches DecodeError::InvalidNumber { at } ==> r == at,
            *self matches DecodeError::TrailingCharacters { at } ==> r == at,
    {
        match self {
            DecodeError::UnexpectedEnd { at } => *at,
            DecodeError::ExpectedToken { at } => *at,
            DecodeError::UnknownKind { at } => *at,
            DecodeError::InvalidEscape { at } => *at,
            DecodeError::InvalidNumber { at } => *at,
            DecodeError::TrailingCharacters { at } => *at,
        }
    }

    /// A human-readable description of the failure.
    pub fn message(&self) -> String {
        match self {
            DecodeError::UnexpectedEnd { .. } => String::from_str(
                "document ended before the grammar was complete",
            ),
            DecodeError::ExpectedToken { .. } => String::from_str(
                "a required part of the document is missing or malformed",
            ),
            DecodeError::UnknownKind { .. } => String::from_str(
                "the type discriminant is not field, bool, array or struct",
            ),
            DecodeError::InvalidEscape { .. } => String::from_str(
                "a string holds an escape other than a quote or a backslash",
            ),
            DecodeError::InvalidNumber { .. } => String::from_str(
                "an array size is not a canonical decimal number that fits",
            ),
            DecodeError::TrailingCharacters { .. } => String::from_str(
                "characters remain after the end of the document",
            ),
        }
    }
}

/// The numeric value of a digit character; ten for a non-digit.
pub open spec fn digit_val_s(c: char) -> nat {
    if c == '0' {
        0
    } else if c == '1' {
        1
    } else if c == '2' {
        2
    } else if c == '3' {
        3
    } else if c == '4' {
        4
    } else if c == '5' {
        5
    } else if c == '6' {
        6
    } else if c == '7' {
        7
    } else if c == '8' {
        8
    } else if c == '9' {
        9
    } else {
        10
    }
}

/// The numeric value of a digit sequence, most significant digit first.
pub open spec fn val_digits(ds: Seq<char>) -> nat
    decreases ds.len(),
{
    if ds.len() == 0 {
        0
    } else {
        val_digits(ds.drop_last()) * 10 + digit_val_s(ds.last())
    }
}

/// The value of the canonical digits of a number is that number.
pub proof fn lemma_val_dec(k: nat)
    ensures
        val_digits(dec_digits(k)) == k,
    decreases k,
{
    assert(val_digits(Seq::<char>::empty()) == 0);
    if k < 10 {
        assert(dec_digits(k) == seq![digit_char(k)]);
        assert(dec_digits(k).drop_last() =~= Seq::<char>::empty());
        assert(digit_val_s(digit_char(k)) == k);
        assert(val_digits(dec_digits(k)) == val_digits(dec_digits(k).drop_last()) * 10
            + digit_val_s(dec_digits(k).last()));
    } else {
        lemma_val_dec(k / 10);
        assert(k / 10 * 10 + k % 10 == k);
        assert(dec_digits(k) == dec_digits(k / 10) + seq![digit_char(k % 10)]);
        assert(dec_digits(k).drop_last() =~= dec_digits(k / 10));
        assert(dec_digits(k).last() == digit_char(k % 10));
        assert(digit_val_s(digit_char(k % 10)) == k % 10);
    }
}

/// A nonempty all-digit sequence with a nonzero leading digit has a
/// positive value.
pub proof fn lemma_val_pos(ds: Seq<char>)
    requires
        ds.len() >= 1,
        forall|q: int| 0 <= q < ds.len() ==> is_digit(#[trigger] ds[q]),
        ds[0] != '0',
    ensures
        val_digits(ds) >= 1,
    decreases ds.len(),
{
    if ds.len() == 1 {
        assert(digit_val_s(ds[0]) >= 1);
    } else {
        assert(ds.drop_last()[0] == ds[0]);
        assert forall|q: int| 0 <= q < ds.drop_last().len() implies is_digit(
            #[trigger] ds.drop_last()[q],
        ) by {
            assert(ds.drop_last()[q] == ds[q]);
        }
        lemma_val_pos(ds.drop_last());
    }
}

/// The canonical digits of the value of a canonical digit sequence are that
/// sequence.
pub proof fn lemma_dec_val(ds: Seq<char>)
    requires
        ds.len() >= 1,
        forall|q: int| 0 <= q < ds.len() ==> is_digit(#[trigger] ds[q]),
        ds[0] != '0' || ds.len() == 1,
    ensures
        dec_digits(val_digits(ds)) == ds,
    decreases ds.len(),
{
    if ds.len() == 1 {
        assert(ds.drop_last() =~= Seq::<char>::empty());
        assert(val_digits(Seq::<char>::empty()) == 0);
        assert(ds.last() == ds[0]);
        assert(val_digits(ds) == val_digits(ds.drop_last()) * 10 + digit_val_s(ds.last()));
        assert(val_digits(ds) == digit_val_s(ds[0]));
        assert(is_digit(ds[0]));
        assert(digit_val_s(ds[0]) < 10);
        assert(digit_char(digit_val_s(ds[0])) == ds[0]);
        assert(dec_digits(val_digits(ds)) =~= ds);
    } else {
        let dl = ds.drop_last();
        assert(dl[0] == ds[0]);
        assert forall|q: int| 0 <= q < dl.len() implies is_digit(#[trigger] dl[q]) by {
            assert(dl[q] == ds[q]);
        }
        lemma_dec_val(dl);
        lemma_val_pos(dl);
        let d = digit_val_s(ds.last());
        assert(is_digit(ds.last()));
        assert(d < 10);
        let v = val_digits(ds);
        assert(v == val_digits(dl) * 10 + d);
        assert(v >= 10) by (nonlinear_arith)
            requires
                v == val_digits(dl) * 10 + d,
                val_digits(dl) >= 1,
        ;
        assert(v / 10 == val_digits(dl) && v % 10 == d) by (nonlinear_arith)
            requires
                v == val_digits(dl) * 10 + d,
                d < 10,
        ;
        assert(dec_digits(v) == dec_digits(v / 10) + seq![digit_char(v % 10)]);
        assert(digit_char(d) == ds.last());
        assert(dec_digits(v) =~= ds);
    }
}

/// A digit sequence's value only grows when digits are appended.
pub proof fn lemma_val_take_mono(ds: Seq<char>, t: int)
    requires
        0 <= t <= ds.len(),
    ensures
        val_digits(ds) >= val_digits(ds.take(t)),
    decreases ds.len(),
{
    if t == ds.len() {
        assert(ds.take(t) =~= ds);
    } else {
        assert(ds.drop_last().take(t) =~= ds.take(t));
        lemma_val_take_mono(ds.drop_last(), t);
        assert(val_digits(ds.drop_last()) * 10 >= val_digits(ds.drop_last())) by (nonlinear_arith);
    }
}

/// No canonical number, however read, starts at position `i` of `s` and is
/// followed there by a non-digit or the end.
pub open spec fn no_number_at(s: Seq<char>, i: int) -> bool {
    forall|k: nat|
        k <= usize::MAX ==> !(#[trigger] dec_digits(k).is_prefix_of(s.skip(i)) && (i + dec_digits(
            k,
        ).len() == s.len() || !is_digit(s[i + dec_digits(k).len() as int])))
}

/// Matches the fixed token `tok` at position `i`.
fn expect_tok(s: &str, n: usize, i: usize, tok: &str) -> (r: Result<usize, DecodeError>)
    requires
        n == s@.len(),
        i <= n,
    ensures
        match r {
            Ok(j) => i <= j <= n && j == i + tok@.len() && s@.subrange(i as int, j as int)
                == tok@,
            Err(_) => !tok@.is_prefix_of(s@.skip(i as int)),
        },
{
    let tn = tok.unicode_len();
    if n - i < tn {
        return Err(DecodeError::UnexpectedEnd { at: i });
    }
    let mut k: usize = 0;
    while k < tn
        invariant
            n == s@.len(),
            i <= n,
            tn == tok@.len(),
            n - i >= tn,
            k <= tn,
            forall|q: int| 0 <= q < k ==> s@[i + q] == tok@[q],
        decreases tn - k,
    {
        let c1 = tok.get_char(k);
        let c2 = s.get_char(i + k);
        if c1 != c2 {
            proof {
                if tok@.is_prefix_of(s@.skip(i as int)) {
                    assert(tok@[k as int] == s@.skip(i as int).subrange(
                        0,
                        tok@.len() as int,
                    )[k as int]);
                    assert(s@.skip(i as int)[k as int] == s@[i + k]);
                    assert(false);
                }
            }
            return Err(DecodeError::ExpectedToken { at: i + k });
        }
        k += 1;
    }
    proof {
        assert(s@.subrange(i as int, i + tok@.len() as int) =~= tok@);
    }
    Ok(i + tn)
}

/// What has been read of a quoted string pins down every string the
/// document could quote: the continuation at the current position.
proof fn quoted_align(s: Seq<char>, i: int, j: int, outv: Seq<char>, w: Seq<char>)
    requires
        0 <= i,
        i + 1 <= j <= s.len(),
        s[i] == '"',
        esc(outv) == s.subrange(i + 1, j),
        quoted(w).is_prefix_of(s.skip(i)),
        outv.is_prefix_of(w),
    ensures
        w.len() == outv.len() ==> j < s.len() && s[j] == '"',
        w.len() > outv.len() ==> j < s.len() && s[j] == esc_char(w[outv.len() as int])[0],
        w.len() > outv.len() && (w[outv.len() as int] == '"' || w[outv.len() as int] == '\\')
            ==> j + 1 < s.len() && s[j + 1] == w[outv.len() as int],
{
    let u = s.skip(i);
    assert(quoted(w) =~= (seq!['"'] + esc(w)) + seq!['"']);
    lemma_prefix_parts(seq!['"'] + esc(w), seq!['"'], u);
    lemma_prefix_parts(seq!['"'], esc(w), u);
    assert(u.skip(1) =~= s.skip(i + 1));
    assert(esc(w).is_prefix_of(s.skip(i + 1)));
    assert(w =~= outv + w.skip(outv.len() as int));
    lemma_esc_app(outv, w.skip(outv.len() as int));
    assert(esc(w) == esc(outv) + esc(w.skip(outv.len() as int)));
    lemma_prefix_parts(esc(outv), esc(w.skip(outv.len() as int)), s.skip(i + 1));
    assert(esc(outv).len() == j - (i + 1));
    assert(s.skip(i + 1).skip(esc(outv).len() as int) =~= s.skip(j));
    assert(esc(w.skip(outv.len() as int)).is_prefix_of(s.skip(j)));
    let rest = w.skip(outv.len() as int);
    // the closing quote of the document sits right after esc(w)
    lemma_prefix_first(seq!['"'], u.skip((seq!['"'] + esc(w)).len() as int));
    assert(u.skip((seq!['"'] + esc(w)).len() as int)[0] == u[1 + esc(w).len() as int]);
    assert(u[1 + esc(w).len() as int] == s[i + 1 + esc(w).len() as int]);
    if w.len() == outv.len() {
        assert(rest =~= Seq::<char>::empty());
        assert(esc(rest) =~= Seq::<char>::empty());
        assert(esc(w).len() == j - (i + 1));
        assert(i + 1 + esc(w).len() as int == j);
        assert(u.len() >= (seq!['"'] + esc(w)).len() + 1);
        assert(s.len() > j);
        assert(s[j] == '"');
    } else {
        assert(rest.len() >= 1);
        lemma_esc_first(rest);
        lemma_prefix_first(esc(rest), s.skip(j));
        assert(s.skip(j)[0] == s[j]);
        assert(s.len() > j);
        assert(s[j] == esc(rest)[0]);
        assert(rest[0] == w[outv.len() as int]);
        if rest[0] == '"' || rest[0] == '\\' {
            assert(esc(rest).len() >= 2);
            assert(s.skip(j).len() >= 2);
            assert(s.skip(j)[1] == s[j + 1]);
            assert(esc(rest)[1] == esc(rest).subrange(0, esc(rest).len() as int)[1]);
            assert(esc(rest) =~= s.skip(j).subrange(0, esc(rest).len() as int));
            assert(s[j + 1] == esc(rest)[1]);
            assert(s[j + 1] == rest[0]);
        }
    }
}

/// Parses a quoted, escaped string at position `i`.
fn parse_quoted(s: &str, n: usize, i: usize) -> (r: Result<(String, usize), DecodeError>)
    requires
        n == s@.len(),
        i <= n,
    ensures
        match r {
            Ok((w, j)) => i <= j <= n && s@.subrange(i as int, j as int) == quoted(w@),
            Err(_) => forall|w: Seq<char>| !(#[trigger] quoted(w)).is_prefix_of(
                s@.skip(i as int),
            ),
        },
{
    if i >= n {
        proof {
            assert forall|w: Seq<char>| !(#[trigger] quoted(w)).is_prefix_of(
                s@.skip(i as int),
            ) by {
                if quoted(w).is_prefix_of(s@.skip(i as int)) {
                    assert(quoted(w).len() >= 2);
                    assert(s@.skip(i as int).len() == 0);
                    assert(false);
                }
            }
        }
        return Err(DecodeError::UnexpectedEnd { at: i });
    }
    let c0 = s.get_char(i);
    if c0 != '"' {
        proof {
            assert forall|w: Seq<char>| !(#[trigger] quoted(w)).is_prefix_of(
                s@.skip(i as int),
            ) by {
                if quoted(w).is_prefix_of(s@.skip(i as int)) {
                    lemma_prefix_first(quoted(w), s@.skip(i as int));
                    assert((seq!['"'] + esc(w))[0] == '"');
                    assert(quoted(w)[0] == (seq!['"'] + esc(w))[0]);
                    assert(s@.skip(i as int)[0] == s@[i as int]);
                    assert(false);
                }
            }
        }
        return Err(DecodeError::ExpectedToken { at: i });
    }
    let mut out = String::new();
    let mut j: usize = i + 1;
    proof {
        assert(esc(out@) =~= s@.subrange(i + 1, j as int));
    }
    while j < n && s.get_char(j) != '"'
        invariant
            n == s@.len(),
            i < n,
            i + 1 <= j <= n,
            s@[i as int] == '"',
            esc(out@) == s@.subrange(i + 1, j as int),
            forall|w: Seq<char>|
                #[trigger] quoted(w).is_prefix_of(s@.skip(i as int)) ==> out@.is_prefix_of(w),
        decreases n - j,
    {
        let ghost out_old = out@;
        let c = s.get_char(j);
        if c == '\\' {
            if j + 1 >= n {
                proof {
                    assert forall|w: Seq<char>| !(#[trigger] quoted(w)).is_prefix_of(
                        s@.skip(i as int),
                    ) by {
                        if quoted(w).is_prefix_of(s@.skip(i as int)) {
                            quoted_align(s@, i as int, j as int, out@, w);
                            if w.len() == out@.len() {
                                assert(s@[j as int] == '"');
                                assert(false);
                            } else {
                                lemma_esc_first(w.skip(out@.len() as int));
                                assert(s@[j as int] == esc_char(w[out@.len() as int])[0]);
                                if w[out@.len() as int] == '"' || w[out@.len() as int] == '\\' {
                                    assert(j + 1 < s@.len());
                                    assert(false);
                                } else {
                                    assert(esc_char(w[out@.len() as int])[0] == w[out@.len()
                                        as int]);
                                    assert(w[out@.len() as int] == '\\');
                                    assert(false);
                                }
                            }
                        }
                    }
                }
                return Err(DecodeError::UnexpectedEnd { at: j });
            }
            let c2 = s.get_char(j + 1);
            if c2 == '"' || c2 == '\\' {
                let piece = s.substring_char(j + 1, j + 2);
                out.append(piece);
                proof {
                    assert(piece@ =~= seq![c2]);
                    lemma_esc_app(out_old, seq![c2]);
                    lemma_esc_one(c2);
                    assert(esc_char(c2) =~= seq!['\\', c2]);
                    assert(esc(out@) == esc(out_old) + seq!['\\', c2]);
                    assert(esc(out@) =~= s@.subrange(i + 1, j + 2));
                    assert forall|w: Seq<char>|
                        #[trigger] quoted(w).is_prefix_of(s@.skip(i as int)) implies out@
                        .is_prefix_of(w) by {
                        quoted_align(s@, i as int, j as int, out_old, w);
                        if w.len() == out_old.len() {
                            assert(s@[j as int] == '"');
                            assert(false);
                        }
                        assert(s@[j as int] == esc_char(w[out_old.len() as int])[0]);
                        if !(w[out_old.len() as int] == '"' || w[out_old.len() as int] == '\\') {
                            assert(esc_char(w[out_old.len() as int])[0] == w[out_old.len()
                                as int]);
                            assert(w[out_old.len() as int] == '\\');
                            assert(false);
                        }
                        assert(s@[j + 1] == w[out_old.len() as int]);
                        assert(w[out_old.len() as int] == c2);
                        assert(out@ =~= w.subrange(0, out@.len() as int));
                    }
                }
                j += 2;
            } else {
                proof {
                    assert forall|w: Seq<char>| !(#[trigger] quoted(w)).is_prefix_of(
                        s@.skip(i as int),
                    ) by {
                        if quoted(w).is_prefix_of(s@.skip(i as int)) {
                            quoted_align(s@, i as int, j as int, out@, w);
                            if w.len() == out@.len() {
                                assert(s@[j as int] == '"');
                                assert(false);
                            } else {
                                assert(s@[j as int] == esc_char(w[out@.len() as int])[0]);
                                if w[out@.len() as int] == '"' || w[out@.len() as int] == '\\' {
                                    assert(s@[j + 1] == w[out@.len() as int]);
                                    assert(false);
                                } else {
                                    assert(esc_char(w[out@.len() as int])[0] == w[out@.len()
                                        as int]);
                                    assert(w[out@.len() as int] == '\\');
                                    assert(false);
                                }
                            }
                        }
                    }
                }
                return Err(DecodeError::InvalidEscape { at: j });
            }
        } else {
            let piece = s.substring_char(j, j + 1);
            out.append(piece);
            proof {
                assert(piece@ =~= seq![c]);
                lemma_esc_app(out_old, seq![c]);
                lemma_esc_one(c);
                assert(esc_char(c) =~= seq![c]);
                assert(esc(out@) == esc(out_old) + seq![c]);
                assert(esc(out@) =~= s@.subrange(i + 1, j + 1));
                assert forall|w: Seq<char>|
                    #[trigger] quoted(w).is_prefix_of(s@.skip(i as int)) implies out@
                    .is_prefix_of(w) by {
                    quoted_align(s@, i as int, j as int, out_old, w);
                    if w.len() == out_old.len() {
                        assert(s@[j as int] == '"');
                        assert(false);
                    }
                    assert(s@[j as int] == esc_char(w[out_old.len() as int])[0]);
                    if w[out_old.len() as int] == '"' || w[out_old.len() as int] == '\\' {
                        assert(esc_char(w[out_old.len() as int])[0] == '\\');
                        assert(false);
                    }
                    assert(esc_char(w[out_old.len() as int])[0] == w[out_old.len() as int]);
                    assert(w[out_old.len() as int] == c);
                    assert(out@ =~= w.subrange(0, out@.len() as int));
                }
            }
            j += 1;
        }
    }
    if j >= n {
        proof {
            assert forall|w: Seq<char>| !(#[trigger] quoted(w)).is_prefix_of(
                s@.skip(i as int),
            ) by {
                if quoted(w).is_prefix_of(s@.skip(i as int)) {
                    quoted_align(s@, i as int, j as int, out@, w);
                    if w.len() == out@.len() {
                        assert(j < s@.len());
                        assert(false);
                    } else {
                        assert(j < s@.len());
                        assert(false);
                    }
                }
            }
        }
        return Err(DecodeError::UnexpectedEnd { at: j });
    }
    proof {
        assert(s@[j as int] == '"');
        assert(s@.subrange(i as int, j + 1) =~= quoted(out@));
    }
    Ok((out, j + 1))
}

/// The numeric value of a digit character, or nothing for a non-digit.
fn digit_value(c: char) -> (r: Option<usize>)
    ensures
        match r {
            Some(v) => v < 10 && c == digit_char(v as nat) && digit_val_s(c) == v,
            None => !is_digit(c),
        },
{
    if c == '0' {
        Some(0)
    } else if c == '1' {
        Some(1)
    } else if c == '2' {
        Some(2)
    } else if c == '3' {
        Some(3)
    } else if c == '4' {
        Some(4)
    } else if c == '5' {
        Some(5)
    } else if c == '6' {
        Some(6)
    } else if c == '7' {
        Some(7)
    } else if c == '8' {
        Some(8)
    } else if c == '9' {
        Some(9)
    } else {
        None
    }
}

/// Parses a canonical decimal number that fits in `usize` at position `i`.
fn parse_number(s: &str, n: usize, i: usize) -> (r: Result<(usize, usize), DecodeError>)
    requires
        n == s@.len(),
        i <= n,
    ensures
        match r {
            Ok((v, j)) => i <= j <= n && s@.subrange(i as int, j as int) == dec_digits(v as nat)
                && (j == n || !is_digit(s@[j as int])),
            Err(_) => no_number_at(s@, i as int),
        },
{
    if i >= n {
        proof {
            assert forall|k: nat|
                k <= usize::MAX implies !(#[trigger] dec_digits(k).is_prefix_of(
                s@.skip(i as int),
            ) && (i + dec_digits(k).len() == s@.len() || !is_digit(
                s@[i + dec_digits(k).len() as int],
            ))) by {
                lemma_dec_digits_props(k);
            }
        }
        return Err(DecodeError::UnexpectedEnd { at: i });
    }
    let c0 = s.get_char(i);
    let d0 = match digit_value(c0) {
        Some(d) => d,
        None => {
            proof {
                assert forall|k: nat|
                    k <= usize::MAX implies !(#[trigger] dec_digits(k).is_prefix_of(
                    s@.skip(i as int),
                ) && (i + dec_digits(k).len() == s@.len() || !is_digit(
                    s@[i + dec_digits(k).len() as int],
                ))) by {
                    lemma_dec_digits_props(k);
                    if dec_digits(k).is_prefix_of(s@.skip(i as int)) {
                        lemma_prefix_first(dec_digits(k), s@.skip(i as int));
                        assert(s@[i as int] == dec_digits(k)[0]);
                        assert(is_digit(dec_digits(k)[0]));
                        assert(false);
                    }
                }
            }
            return Err(DecodeError::InvalidNumber { at: i });
        },
    };
    if d0 == 0 {
        if i + 1 < n {
            let c1 = s.get_char(i + 1);
            if digit_value(c1).is_some() {
                proof {
                    assert forall|k: nat|
                        k <= usize::MAX implies !(#[trigger] dec_digits(k).is_prefix_of(
                        s@.skip(i as int),
                    ) && (i + dec_digits(k).len() == s@.len() || !is_digit(
                        s@[i + dec_digits(k).len() as int],
                    ))) by {
                        lemma_dec_digits_props(k);
                        if dec_digits(k).is_prefix_of(s@.skip(i as int)) {
                            lemma_prefix_first(dec_digits(k), s@.skip(i as int));
                            assert(s@[i as int] == dec_digits(k)[0]);
                            assert(dec_digits(k)[0] == '0');
                            assert(k == 0);
                            assert(dec_digits(k) == seq![digit_char(0)]);
                            assert(i + dec_digits(k).len() == i + 1);
                            assert(is_digit(s@[i + 1]));
                        }
                    }
                }
                return Err(DecodeError::InvalidNumber { at: i });
            }
        }
        proof {
            assert(c0 == digit_char(0));
            assert(dec_digits(0) == seq![digit_char(0)]);
            assert(s@.subrange(i as int, i + 1) =~= dec_digits(0));
            if i + 1 < n {
                assert(!is_digit(s@[i + 1]));
            }
        }
        return Ok((0, i + 1));
    }
    let mut v: usize = d0;
    let mut j: usize = i + 1;
    let mut stop = false;
    proof {
        assert(s@.subrange(i as int, j as int) =~= seq![c0]);
        assert(s@.subrange(i as int, j as int).drop_last() =~= Seq::<char>::empty());
        assert(val_digits(Seq::<char>::empty()) == 0);
        assert(val_digits(s@.subrange(i as int, j as int)) == val_digits(
            s@.subrange(i as int, j as int).drop_last(),
        ) * 10 + digit_val_s(s@.subrange(i as int, j as int).last()));
        assert(val_digits(s@.subrange(i as int, j as int)) == d0);
    }
    while j < n && !stop
        invariant
            n == s@.len(),
            i < j <= n,
            forall|q: int| i <= q < j ==> is_digit(#[trigger] s@[q]),
            s@[i as int] != '0',
            v == val_digits(s@.subrange(i as int, j as int)),
            stop ==> j < n && !is_digit(s@[j as int]),
        decreases n - j, (if stop { 0int } else { 1int }),
    {
        let c = s.get_char(j);
        match digit_value(c) {
            None => {
                stop = true;
            },
            Some(d) => {
                if v > (usize::MAX - d) / 10 {
                    proof {
                        assert(v * 10 + d > usize::MAX) by (nonlinear_arith)
                            requires
                                v > (usize::MAX - d) / 10,
                                d < 10,
                                usize::MAX - d == ((usize::MAX - d) / 10) * 10 + (usize::MAX
                                    - d) % 10,
                                (usize::MAX - d) % 10 < 10,
                        ;
                        let run = s@.subrange(i as int, j as int);
                        assert forall|k: nat|
                            k <= usize::MAX implies !(#[trigger] dec_digits(k).is_prefix_of(
                            s@.skip(i as int),
                        ) && (i + dec_digits(k).len() == s@.len() || !is_digit(
                            s@[i + dec_digits(k).len() as int],
                        ))) by {
                            lemma_dec_digits_props(k);
                            if dec_digits(k).is_prefix_of(s@.skip(i as int)) && (i + dec_digits(
                                k,
                            ).len() == s@.len() || !is_digit(s@[i + dec_digits(k).len() as int])) {
                                let dk = dec_digits(k);
                                if dk.len() <= j - i {
                                    assert(i + dk.len() as int <= j < s@.len());
                                    
                                    if i + (dk.len() as int) < j {
                                        assert(is_digit(s@[i + dk.len() as int]));
                                    } else {
                                        assert(is_digit(s@[j as int]));
                                    }
                                    assert(false);
                                } else {
                                    assert(dk.len() >= j - i + 1);
                                    assert(dk.take(j - i + 1) =~= s@.subrange(i as int, j + 1));
                                    lemma_val_take_mono(dk, j - i + 1);
                                    lemma_val_dec(k);
                                    assert(s@.subrange(i as int, j + 1).drop_last() =~= run);
                                    assert(s@.subrange(i as int, j + 1).last() == s@[j as int]);
                                    assert(digit_val_s(s@[j as int]) == d);
                                    assert(val_digits(s@.subrange(i as int, j + 1)) == v * 10
                                        + d);
                                    assert(k >= v * 10 + d);
                                    assert(false);
                                }
                            }
                        }
                    }
                    return Err(DecodeError::InvalidNumber { at: i });
                }
                proof {
                    assert(v * 10 + d <= usize::MAX) by (nonlinear_arith)
                        requires
                            v <= (usize::MAX - d) / 10,
                            d < 10,
                            usize::MAX - d == ((usize::MAX - d) / 10) * 10 + (usize::MAX - d)
                                % 10,
                            (usize::MAX - d) % 10 >= 0,
                    ;
                    assert(s@.subrange(i as int, j + 1).drop_last() =~= s@.subrange(
                        i as int,
                        j as int,
                    ));
                    assert(s@.subrange(i as int, j + 1).last() == s@[j as int]);
                }
                v = v * 10 + d;
                j += 1;
            },
        }
    }
    proof {
        let run = s@.subrange(i as int, j as int);
        assert(run[0] == s@[i as int]);
        assert forall|q: int| 0 <= q < run.len() implies is_digit(#[trigger] run[q]) by {
            assert(run[q] == s@[i + q]);
        }
        lemma_dec_val(run);
        assert(dec_digits(v as nat) == run);
    }
    Ok((v, j))
}

/// A subrange that was read pins a prefix at its start.
proof fn sub_is_prefix(s: Seq<char>, i: int, j: int)
    requires
        0 <= i <= j <= s.len(),
    ensures
        s.subrange(i, j).is_prefix_of(s.skip(i)),
{
    assert(s.subrange(i, j) =~= s.skip(i).subrange(0, j - i));
}

/// Parses one member document at position `i`.
fn parse_member(s: &str, n: usize, i: usize) -> (r: Result<(ConcreteStructMember, usize), DecodeError>)
    requires
        n == s@.len(),
        i <= n,
    ensures
        match r {
            Ok((m, j)) => i <= j <= n && s@.subrange(i as int, j as int) == enc_member(m.model()),
            Err(_) => forall|mm: MemberModel|
                fits_ty(mm.ty) ==> !(#[trigger] enc_member(mm)).is_prefix_of(s@.skip(i as int)),
        },
    decreases n - i, 0int,
{
    let u = Ghost(s@.skip(i as int));
    proof {
        crate::laws::lemma_tok_facts();
    }
    let j0 = match expect_tok(s, n, i, "{\"name\":") {
        Ok(j) => j,
        Err(e) => {
            proof {
                assert forall|mm: MemberModel| fits_ty(mm.ty) implies !(
                #[trigger] enc_member(mm)).is_prefix_of(u@) by {
                    if enc_member(mm).is_prefix_of(u@) {
                        lemma_member_at(mm, u@);
                        assert(false);
                    }
                }
            }
            return Err(e);
        },
    };
    proof {
        assert(u@.skip(8) =~= s@.skip(j0 as int));
    }
    let (name, j1) = match parse_quoted(s, n, j0) {
        Ok(p) => p,
        Err(e) => {
            proof {
                assert forall|mm: MemberModel| fits_ty(mm.ty) implies !(
                #[trigger] enc_member(mm)).is_prefix_of(u@) by {
                    if enc_member(mm).is_prefix_of(u@) {
                        lemma_member_at(mm, u@);
                        assert(quoted(mm.name).is_prefix_of(s@.skip(j0 as int)));
                        assert(false);
                    }
                }
            }
            return Err(e);
        },
    };
    proof {
        sub_is_prefix(s@, j0 as int, j1 as int);
    }
    let j2 = match expect_tok(s, n, j1, ",") {
        Ok(j) => j,
        Err(e) => {
            proof {
                crate::laws::lemma_tok_facts();
                assert forall|mm: MemberModel| fits_ty(mm.ty) implies !(
                #[trigger] enc_member(mm)).is_prefix_of(u@) by {
                    if enc_member(mm).is_prefix_of(u@) {
                        lemma_member_at(mm, u@);
                        crate::laws::lemma_quoted_det(mm.name, name@, s@.skip(j0 as int));
                        assert(u@[8 + quoted(name@).len() as int] == ',');
                        assert(s@[j1 as int] == ',');
                        crate::laws::lemma_char_prefix(',', s@.skip(j1 as int));
                        assert(","@ =~= seq![',']);
                        assert(false);
                    }
                }
            }
            return Err(e);
        },
    };
    let (ty, j3) = match parse_ty_body(s, n, j2) {
        Ok(p) => p,
        Err(e) => {
            proof {
                assert forall|mm: MemberModel| fits_ty(mm.ty) implies !(
                #[trigger] enc_member(mm)).is_prefix_of(u@) by {
                    if enc_member(mm).is_prefix_of(u@) {
                        lemma_member_at(mm, u@);
                        crate::laws::lemma_quoted_det(mm.name, name@, s@.skip(j0 as int));
                        assert(u@.skip(9 + quoted(name@).len() as int) =~= s@.skip(j2 as int));
                        assert(enc_ty_body(mm.ty).is_prefix_of(s@.skip(j2 as int)));
                        assert(false);
                    }
                }
            }
            return Err(e);
        },
    };
    proof {
        sub_is_prefix(s@, j2 as int, j3 as int);
    }
    let j4 = match expect_tok(s, n, j3, "}") {
        Ok(j) => j,
        Err(e) => {
            proof {
                crate::laws::lemma_tok_facts();
                assert forall|mm: MemberModel| fits_ty(mm.ty) implies !(
                #[trigger] enc_member(mm)).is_prefix_of(u@) by {
                    if enc_member(mm).is_prefix_of(u@) {
                        lemma_member_at(mm, u@);
                        crate::laws::lemma_quoted_det(mm.name, name@, s@.skip(j0 as int));
                        assert(u@.skip(9 + quoted(name@).len() as int) =~= s@.skip(j2 as int));
                        crate::laws::lemma_ty_body_det(mm.ty, ty.model(), s@.skip(j2 as int));
                        assert(u@[9 + quoted(name@).len() as int + enc_ty_body(
                            ty.model(),
                        ).len() as int] == '}');
                        assert(s@[j3 as int] == '}');
                        crate::laws::lemma_char_prefix('}', s@.skip(j3 as int));
                        assert("}"@ =~= seq!['}']);
                        assert(false);
                    }
                }
            }
            return Err(e);
        },
    };
    let m = ConcreteStructMember { name, ty };
    proof {
        assert(s@.subrange(i as int, j4 as int) =~= s@.subrange(i as int, j0 as int)
            + s@.subrange(j0 as int, j1 as int) + s@.subrange(j1 as int, j2 as int)
            + s@.subrange(j2 as int, j3 as int) + s@.subrange(j3 as int, j4 as int));
        assert(s@.subrange(i as int, j4 as int) == enc_member(m.model()));
    }
    Ok((m, j4))
}

/// Parses a comma-separated member list closed by a bracket at position
/// `i`, consuming the bracket.
fn parse_members(s: &str, n: usize, i: usize) -> (r: Result<
    (Vec<ConcreteStructMember>, usize),
    DecodeError,
>)
    requires
        n == s@.len(),
        i <= n,
    ensures
        match r {
            Ok((v, j)) => i <= j <= n && s@.subrange(i as int, j as int) == enc_members(
                members_model(v@),
            ) + seq![']'],
            Err(_) => forall|ms: Seq<MemberModel>|
                fits_members(ms) ==> !((#[trigger] enc_members(ms)) + seq![']']).is_prefix_of(
                    s@.skip(i as int),
                ),
        },
    decreases n - i, 1int,
{
    let u = Ghost(s@.skip(i as int));
    proof {
        crate::laws::lemma_tok_facts();
    }
    if i < n {
        let c = s.get_char(i);
        if c == ']' {
            let v: Vec<ConcreteStructMember> = Vec::new();
            proof {
                assert(members_model(v@) =~= Seq::<MemberModel>::empty());
                assert(enc_members(members_model(v@)) + seq![']'] =~= s@.subrange(
                    i as int,
                    i + 1,
                ));
            }
            return Ok((v, i + 1));
        }
    }
    let (mem, j1) = match parse_member(s, n, i) {
        Ok(p) => p,
        Err(e) => {
            proof {
                assert forall|ms: Seq<MemberModel>| fits_members(ms) implies !((
                #[trigger] enc_members(ms)) + seq![']']).is_prefix_of(u@) by {
                    if (enc_members(ms) + seq![']']).is_prefix_of(u@) {
                        if ms.len() == 0 {
                            assert(enc_members(ms) + seq![']'] =~= seq![']']);
                            lemma_prefix_first(enc_members(ms) + seq![']'], u@);
                            assert(u@[0] == ']');
                            assert(i < n && s@[i as int] == ']');
                            assert(false);
                        } else {
                            if ms.len() == 1 {
                                lemma_prefix_parts(enc_member(ms[0]), seq![']'], u@);
                            } else {
                                assert(enc_members(ms) + seq![']'] =~= enc_member(ms[0]) + (","@
                                    + enc_members(ms.drop_first()) + seq![']']));
                                lemma_prefix_parts(
                                    enc_member(ms[0]),
                                    ","@ + enc_members(ms.drop_first()) + seq![']'],
                                    u@,
                                );
                            }
                            assert(enc_member(ms[0]).is_prefix_of(u@));
                            assert(fits_ty(ms[0].ty));
                            assert(false);
                        }
                    }
                }
            }
            return Err(e);
        },
    };
    proof {
        sub_is_prefix(s@, i as int, j1 as int);
        crate::laws::lemma_enc_member_first(mem.model());
    }
    let sep_comma = j1 < n && s.get_char(j1) == ',';
    let sep_close = !sep_comma && j1 < n && s.get_char(j1) == ']';
    proof {
        crate::laws::lemma_tok_facts();
    }
    if sep_comma {
        match parse_members(s, n, j1 + 1) {
            Ok((rest, j2)) => {
                if rest.is_empty() {
                    proof {
                        assert(members_model(rest@) =~= Seq::<MemberModel>::empty());
                        assert(enc_members(members_model(rest@)) + seq![']'] =~= seq![']']);
                        assert(s@.subrange(j1 + 1, j2 as int) =~= seq![']']);
                        assert(s@.subrange(j1 + 1, j2 as int)[0] == s@[j1 + 1]);
                        assert(s@[j1 + 1] == ']');
                        assert forall|ms: Seq<MemberModel>| fits_members(ms) implies !((
                        #[trigger] enc_members(ms)) + seq![']']).is_prefix_of(u@) by {
                            if (enc_members(ms) + seq![']']).is_prefix_of(u@) {
                                members_list_align(s@, i as int, j1 as int, mem.model(), ms);
                                assert(ms.len() >= 2);
                                crate::laws::lemma_enc_members_first(ms.drop_first());
                                lemma_prefix_first(
                                    enc_members(ms.drop_first()) + seq![']'],
                                    s@.skip(j1 + 1),
                                );
                                assert((enc_members(ms.drop_first()) + seq![']'])[0]
                                    == enc_members(ms.drop_first())[0]);
                                assert(s@[j1 + 1] == '{');
                                assert(false);
                            }
                        }
                    }
                    return Err(DecodeError::ExpectedToken { at: j1 + 1 });
                }
                let mut v: Vec<ConcreteStructMember> = Vec::new();
                v.push(mem);
                let mut rest_m = rest;
                v.append(&mut rest_m);
                proof {
                    crate::types::lemma_members_model_pointwise(v@);
                    crate::types::lemma_members_model_pointwise(rest@);
                    let mo = members_model(v@);
                    assert(mo.len() >= 2);
                    assert(mo[0] == mem.model());
                    assert(mo.drop_first() =~= members_model(rest@));
                    assert(s@.subrange(i as int, j2 as int) =~= s@.subrange(i as int, j1 as int)
                        + s@.subrange(j1 as int, j1 + 1) + s@.subrange(j1 + 1, j2 as int));
                    assert(s@.subrange(j1 as int, j1 + 1) =~= ","@);
                    assert(enc_members(mo) == enc_member(mo[0]) + ","@ + enc_members(
                        mo.drop_first(),
                    ));
                    assert(s@.subrange(i as int, j2 as int) =~= enc_members(mo) + seq![']']);
                }
                return Ok((v, j2));
            },
            Err(e) => {
                proof {
                    assert forall|ms: Seq<MemberModel>| fits_members(ms) implies !((
                    #[trigger] enc_members(ms)) + seq![']']).is_prefix_of(u@) by {
                        if (enc_members(ms) + seq![']']).is_prefix_of(u@) {
                            members_list_align(s@, i as int, j1 as int, mem.model(), ms);
                            assert(ms.len() >= 2);
                            assert((enc_members(ms.drop_first()) + seq![']']).is_prefix_of(
                                s@.skip(j1 + 1),
                            ));
                            assert(fits_members(ms.drop_first()));
                            assert(false);
                        }
                    }
                }
                return Err(e);
            },
        }
    } else if sep_close {
        let mut v: Vec<ConcreteStructMember> = Vec::new();
        v.push(mem);
        proof {
            crate::types::lemma_members_model_pointwise(v@);
            let mo = members_model(v@);
            assert(mo.len() == 1);
            assert(mo[0] == mem.model());
            assert(enc_members(mo) == enc_member(mem.model()));
            assert(s@.subrange(i as int, j1 + 1) =~= s@.subrange(i as int, j1 as int) + seq![
                ']',
            ]);
        }
        return Ok((v, j1 + 1));
    } else {
        proof {
            assert forall|ms: Seq<MemberModel>| fits_members(ms) implies !((
            #[trigger] enc_members(ms)) + seq![']']).is_prefix_of(u@) by {
                if (enc_members(ms) + seq![']']).is_prefix_of(u@) {
                    members_list_align(s@, i as int, j1 as int, mem.model(), ms);
                    assert(false);
                }
            }
        }
        return Err(DecodeError::ExpectedToken { at: j1 });
    }
}

/// Parses the body of a type document (discriminant and payload) at
/// position `i`.
#[verifier::rlimit(100)]
fn parse_ty_body(s: &str, n: usize, i: usize) -> (r: Result<(ConcreteType, usize), DecodeError>)
    requires
        n == s@.len(),
        i <= n,
    ensures
        match r {
            Ok((t, j)) => i <= j <= n && s@.subrange(i as int, j as int) == enc_ty_body(
                t.model(),
            ),
            Err(_) => forall|m: TypeModel|
                fits_ty(m) ==> !(#[trigger] enc_ty_body(m)).is_prefix_of(s@.skip(i as int)),
        },
    decreases n - i, 0int,
{
    let u = Ghost(s@.skip(i as int));
    proof {
        crate::laws::lemma_tok_facts();
    }
    let j0 = match expect_tok(s, n, i, "\"type\":\"") {
        Ok(j) => j,
        Err(e) => {
            proof {
                assert forall|m: TypeModel| fits_ty(m) implies !(
                #[trigger] enc_ty_body(m)).is_prefix_of(u@) by {
                    if enc_ty_body(m).is_prefix_of(u@) {
                        lemma_ty_body_shape(m, u@);
                        assert(false);
                    }
                }
            }
            return Err(e);
        },
    };
    proof {
        assert(u@.skip(8) =~= s@.skip(j0 as int));
    }
    let r_field = expect_tok(s, n, j0, "field\"");
    if let Ok(j1) = r_field {
        proof {
            assert(s@.subrange(i as int, j1 as int) =~= s@.subrange(i as int, j0 as int)
                + s@.subrange(j0 as int, j1 as int));
            assert(s@.subrange(i as int, j1 as int) == enc_ty_body(
                ConcreteType::FieldElement.model(),
            ));
        }
        return Ok((ConcreteType::FieldElement, j1));
    }
    let r_bool = expect_tok(s, n, j0, "bool\"");
    if let Ok(j1) = r_bool {
        proof {
            assert(s@.subrange(i as int, j1 as int) =~= s@.subrange(i as int, j0 as int)
                + s@.subrange(j0 as int, j1 as int));
            assert(s@.subrange(i as int, j1 as int) == enc_ty_body(
                ConcreteType::Boolean.model(),
            ));
        }
        return Ok((ConcreteType::Boolean, j1));
    }
    let r_array = expect_tok(s, n, j0, "array\"");
    if let Ok(j1) = r_array {
        // the document is an array type or nothing
        let j2 = match expect_tok(s, n, j1, ",\"components\":{\"size\":") {
            Ok(j) => j,
            Err(e) => {
                proof {
                    assert forall|m: TypeModel| fits_ty(m) implies !(
                    #[trigger] enc_ty_body(m)).is_prefix_of(u@) by {
                        if enc_ty_body(m).is_prefix_of(u@) {
                            array_kind_only(s@, i as int, j0 as int, m);
                            let e0 = m->Array_0;
                            let k0 = m->Array_1;
                            lemma_ty_body_array_at(e0, k0, u@);
                            assert(u@.skip(14) =~= s@.skip(j1 as int));
                            assert(false);
                        }
                    }
                }
                return Err(e);
            },
        };
        let (size, j3) = match parse_number(s, n, j2) {
            Ok(p) => p,
            Err(e) => {
                proof {
                    assert forall|m: TypeModel| fits_ty(m) implies !(
                    #[trigger] enc_ty_body(m)).is_prefix_of(u@) by {
                        if enc_ty_body(m).is_prefix_of(u@) {
                            array_kind_only(s@, i as int, j0 as int, m);
                            let e0 = m->Array_0;
                            let k0 = m->Array_1;
                            lemma_ty_body_array_at(e0, k0, u@);
                            assert(u@.skip(36) =~= s@.skip(j2 as int));
                            lemma_dec_digits_props(k0);
                            assert(dec_digits(k0).is_prefix_of(s@.skip(j2 as int)));
                            assert(s@[j2 + dec_digits(k0).len() as int] == ',');
                            assert(!is_digit(s@[j2 + dec_digits(k0).len() as int]));
                            assert(k0 <= usize::MAX);
                            assert(false);
                        }
                    }
                }
                return Err(e);
            },
        };
        proof {
            sub_is_prefix(s@, j2 as int, j3 as int);
        }
        let j4 = match expect_tok(s, n, j3, ",") {
            Ok(j) => j,
            Err(e) => {
                proof {
                    assert forall|m: TypeModel| fits_ty(m) implies !(
                    #[trigger] enc_ty_body(m)).is_prefix_of(u@) by {
                        if enc_ty_body(m).is_prefix_of(u@) {
                            array_kind_only(s@, i as int, j0 as int, m);
                            let e0 = m->Array_0;
                            let k0 = m->Array_1;
                            lemma_ty_body_array_at(e0, k0, u@);
                            assert(u@.skip(36) =~= s@.skip(j2 as int));
                            number_boundary(s@, j2 as int, j3 as int, size, k0);
                            assert(s@[j3 as int] == ',');
                            crate::laws::lemma_char_prefix(',', s@.skip(j3 as int));
                            assert(","@ =~= seq![',']);
                            assert(false);
                        }
                    }
                }
                return Err(e);
            },
        };
        let (elem, j5) = match parse_ty_body(s, n, j4) {
            Ok(p) => p,
            Err(e) => {
                proof {
                    assert forall|m: TypeModel| fits_ty(m) implies !(
                    #[trigger] enc_ty_body(m)).is_prefix_of(u@) by {
                        if enc_ty_body(m).is_prefix_of(u@) {
                            array_kind_only(s@, i as int, j0 as int, m);
                            let e0 = m->Array_0;
                            let k0 = m->Array_1;
                            lemma_ty_body_array_at(e0, k0, u@);
                            assert(u@.skip(36) =~= s@.skip(j2 as int));
                            number_boundary(s@, j2 as int, j3 as int, size, k0);
                            assert(u@.skip(37 + dec_digits(k0).len() as int) =~= s@.skip(
                                j4 as int,
                            ));
                            assert(enc_ty_body(*e0).is_prefix_of(s@.skip(j4 as int)));
                            assert(fits_ty(*e0));
                            assert(false);
                        }
                    }
                }
                return Err(e);
            },
        };
        proof {
            sub_is_prefix(s@, j4 as int, j5 as int);
        }
        let j6 = match expect_tok(s, n, j5, "}") {
            Ok(j) => j,
            Err(e) => {
                proof {
                    assert forall|m: TypeModel| fits_ty(m) implies !(
                    #[trigger] enc_ty_body(m)).is_prefix_of(u@) by {
                        if enc_ty_body(m).is_prefix_of(u@) {
                            array_kind_only(s@, i as int, j0 as int, m);
                            let e0 = m->Array_0;
                            let k0 = m->Array_1;
                            lemma_ty_body_array_at(e0, k0, u@);
                            assert(u@.skip(36) =~= s@.skip(j2 as int));
                            number_boundary(s@, j2 as int, j3 as int, size, k0);
                            assert(u@.skip(37 + dec_digits(k0).len() as int) =~= s@.skip(
                                j4 as int,
                            ));
                            crate::laws::lemma_ty_body_det(*e0, elem.model(), s@.skip(j4 as int));
                            assert(u@[37 + dec_digits(k0).len() as int + enc_ty_body(
                                elem.model(),
                            ).len() as int] == '}');
                            assert(s@[j5 as int] == '}');
                            crate::laws::lemma_char_prefix('}', s@.skip(j5 as int));
                            assert("}"@ =~= seq!['}']);
                            assert(false);
                        }
                    }
                }
                return Err(e);
            },
        };
        let at = ConcreteArrayType { ty: Box::new(elem), size };
        let res = ConcreteType::Array(at);
        proof {
            assert(s@.subrange(i as int, j6 as int) =~= s@.subrange(i as int, j0 as int)
                + s@.subrange(j0 as int, j1 as int) + s@.subrange(j1 as int, j2 as int)
                + s@.subrange(j2 as int, j3 as int) + s@.subrange(j3 as int, j4 as int)
                + s@.subrange(j4 as int, j5 as int) + s@.subrange(j5 as int, j6 as int));
            assert(res.model() == TypeModel::Array(Box::new(elem.model()), size as nat));
            assert(s@.subrange(i as int, j6 as int) == enc_ty_body(res.model()));
        }
        return Ok((res, j6));
    }
    let r_struct = expect_tok(s, n, j0, "struct\"");
    if let Ok(j1) = r_struct {
        let j2 = match expect_tok(s, n, j1, ",\"components\":{\"name\":") {
            Ok(j) => j,
            Err(e) => {
                proof {
                    assert forall|m: TypeModel| fits_ty(m) implies !(
                    #[trigger] enc_ty_body(m)).is_prefix_of(u@) by {
                        if enc_ty_body(m).is_prefix_of(u@) {
                            struct_kind_only(s@, i as int, j0 as int, m);
                            let nm0 = m->Struct_0;
                            let ms0 = m->Struct_1;
                            lemma_ty_body_struct_at(nm0, ms0, u@);
                            assert(u@.skip(15) =~= s@.skip(j1 as int));
                            assert(false);
                        }
                    }
                }
                return Err(e);
            },
        };
        let (name, j3) = match parse_quoted(s, n, j2) {
            Ok(p) => p,
            Err(e) => {
                proof {
                    assert forall|m: TypeModel| fits_ty(m) implies !(
                    #[trigger] enc_ty_body(m)).is_prefix_of(u@) by {
                        if enc_ty_body(m).is_prefix_of(u@) {
                            struct_kind_only(s@, i as int, j0 as int, m);
                            let nm0 = m->Struct_0;
                            let ms0 = m->Struct_1;
                            lemma_ty_body_struct_at(nm0, ms0, u@);
                            assert(u@.skip(37) =~= s@.skip(j2 as int));
                            assert(quoted(nm0).is_prefix_of(s@.skip(j2 as int)));
                            assert(false);
                        }
                    }
                }
                return Err(e);
            },
        };
        proof {
            sub_is_prefix(s@, j2 as int, j3 as int);
        }
        let j4 = match expect_tok(s, n, j3, ",\"members\":[") {
            Ok(j) => j,
            Err(e) => {
                proof {
                    assert forall|m: TypeModel| fits_ty(m) implies !(
                    #[trigger] enc_ty_body(m)).is_prefix_of(u@) by {
                        if enc_ty_body(m).is_prefix_of(u@) {
                            struct_kind_only(s@, i as int, j0 as int, m);
                            let nm0 = m->Struct_0;
                            let ms0 = m->Struct_1;
                            lemma_ty_body_struct_at(nm0, ms0, u@);
                            assert(u@.skip(37) =~= s@.skip(j2 as int));
                            crate::laws::lemma_quoted_det(nm0, name@, s@.skip(j2 as int));
                            assert(u@.skip(37 + quoted(name@).len() as int) =~= s@.skip(
                                j3 as int,
                            ));
                            assert(false);
                        }
                    }
                }
                return Err(e);
            },
        };
        let (members, j5) = match parse_members(s, n, j4) {
            Ok(p) => p,
            Err(e) => {
                proof {
                    assert forall|m: TypeModel| fits_ty(m) implies !(
                    #[trigger] enc_ty_body(m)).is_prefix_of(u@) by {
                        if enc_ty_body(m).is_prefix_of(u@) {
                            struct_kind_only(s@, i as int, j0 as int, m);
                            let nm0 = m->Struct_0;
                            let ms0 = m->Struct_1;
                            lemma_ty_body_struct_at(nm0, ms0, u@);
                            assert(u@.skip(37) =~= s@.skip(j2 as int));
                            crate::laws::lemma_quoted_det(nm0, name@, s@.skip(j2 as int));
                            assert(u@.skip(49 + quoted(name@).len() as int) =~= s@.skip(
                                j4 as int,
                            ));
                            assert((enc_members(ms0) + seq![']']).is_prefix_of(
                                s@.skip(j4 as int),
                            ));
                            assert(fits_members(ms0));
                            assert(false);
                        }
                    }
                }
                return Err(e);
            },
        };
        proof {
            sub_is_prefix(s@, j4 as int, j5 as int);
        }
        let j6 = match expect_tok(s, n, j5, "}") {
            Ok(j) => j,
            Err(e) => {
                proof {
                    assert forall|m: TypeModel| fits_ty(m) implies !(
                    #[trigger] enc_ty_body(m)).is_prefix_of(u@) by {
                        if enc_ty_body(m).is_prefix_of(u@) {
                            struct_kind_only(s@, i as int, j0 as int, m);
                            let nm0 = m->Struct_0;
                            let ms0 = m->Struct_1;
                            lemma_ty_body_struct_at(nm0, ms0, u@);
                            assert(u@.skip(37) =~= s@.skip(j2 as int));
                            crate::laws::lemma_quoted_det(nm0, name@, s@.skip(j2 as int));
                            assert(u@.skip(49 + quoted(name@).len() as int) =~= s@.skip(
                                j4 as int,
                            ));
                            crate::laws::lemma_members_det(
                                ms0,
                                members_model(members@),
                                s@.skip(j4 as int),
                            );
                            assert(u@[50 + quoted(name@).len() as int + enc_members(
                                members_model(members@),
                            ).len() as int] == '}');
                            assert(s@[j5 as int] == '}');
                            crate::laws::lemma_char_prefix('}', s@.skip(j5 as int));
                            assert("}"@ =~= seq!['}']);
                            assert(false);
                        }
                    }
                }
                return Err(e);
            },
        };
        let st = ConcreteStructType { name, members };
        let res = ConcreteType::Struct(st);
        proof {
            assert("]}"@ =~= seq![']'] + "}"@);
            assert(s@.subrange(i as int, j6 as int) =~= s@.subrange(i as int, j0 as int)
                + s@.subrange(j0 as int, j1 as int) + s@.subrange(j1 as int, j2 as int)
                + s@.subrange(j2 as int, j3 as int) + s@.subrange(j3 as int, j4 as int)
                + s@.subrange(j4 as int, j5 as int) + s@.subrange(j5 as int, j6 as int));
            assert(res.model() == TypeModel::Struct(name@, members_model(members@)));
            assert(s@.subrange(j4 as int, j5 as int) + s@.subrange(j5 as int, j6 as int)
                =~= enc_members(members_model(members@)) + "]}"@);
            assert(s@.subrange(i as int, j6 as int) =~= enc_ty_body(res.model()));
        }
        return Ok((res, j6));
    }
    proof {
        assert forall|m: TypeModel| fits_ty(m) implies !(
        #[trigger] enc_ty_body(m)).is_prefix_of(u@) by {
            if enc_ty_body(m).is_prefix_of(u@) {
                lemma_ty_body_shape(m, u@);
                assert(u@.skip(8) =~= s@.skip(j0 as int));
                match m {
                    TypeModel::Field => {
                        assert(kind_word(m) == "field\""@);
                        assert(false);
                    },
                    TypeModel::Bool => {
                        assert(kind_word(m) == "bool\""@);
                        assert(false);
                    },
                    TypeModel::Array(..) => {
                        assert(kind_word(m) == "array\""@);
                        assert(false);
                    },
                    TypeModel::Struct(..) => {
                        assert(kind_word(m) == "struct\""@);
                        assert(false);
                    },
                }
            }
        }
    }
    Err(DecodeError::UnknownKind { at: j0 })
}

/// A type document whose discriminant starts with the array keyword is an
/// array document.
proof fn array_kind_only(s: Seq<char>, i: int, j0: int, m: TypeModel)
    requires
        0 <= i <= s.len(),
        j0 == i + 8,
        j0 + 6 <= s.len(),
        s.subrange(j0, j0 + 6) == "array\""@,
        enc_ty_body(m).is_prefix_of(s.skip(i)),
    ensures
        m is Array,
{
    crate::laws::lemma_tok_facts();
    lemma_ty_body_shape(m, s.skip(i));
    assert(s.skip(i).skip(8) =~= s.skip(j0));
    lemma_prefix_first(kind_word(m), s.skip(j0));
    assert(s.skip(j0)[0] == s[j0]);
    assert(s[j0] == "array\""@[0]);
    match m {
        TypeModel::Field => {
            assert(kind_word(m)[0] == 'f');
            assert(false);
        },
        TypeModel::Bool => {
            assert(kind_word(m)[0] == 'b');
            assert(false);
        },
        TypeModel::Array(..) => {},
        TypeModel::Struct(..) => {
            assert(kind_word(m)[0] == 's');
            assert(false);
        },
    }
}

/// A type document whose discriminant starts with the struct keyword is a
/// struct document.
proof fn struct_kind_only(s: Seq<char>, i: int, j0: int, m: TypeModel)
    requires
        0 <= i <= s.len(),
        j0 == i + 8,
        j0 + 7 <= s.len(),
        s.subrange(j0, j0 + 7) == "struct\""@,
        enc_ty_body(m).is_prefix_of(s.skip(i)),
    ensures
        m is Struct,
{
    crate::laws::lemma_tok_facts();
    lemma_ty_body_shape(m, s.skip(i));
    assert(s.skip(i).skip(8) =~= s.skip(j0));
    lemma_prefix_first(kind_word(m), s.skip(j0));
    assert(s.skip(j0)[0] == s[j0]);
    assert(s[j0] == "struct\""@[0]);
    match m {
        TypeModel::Field => {
            assert(kind_word(m)[0] == 'f');
            assert(false);
        },
        TypeModel::Bool => {
            assert(kind_word(m)[0] == 'b');
            assert(false);
        },
        TypeModel::Array(..) => {
            assert(kind_word(m)[0] == 'a');
            assert(false);
        },
        TypeModel::Struct(..) => {},
    }
}

/// The parsed number and the number a document holds at the same position
/// are the same number.
proof fn number_boundary(s: Seq<char>, j2: int, j3: int, v: usize, k0: nat)
    requires
        0 <= j2 <= j3 <= s.len(),
        s.subrange(j2, j3) == dec_digits(v as nat),
        j3 == s.len() || !is_digit(s[j3]),
        dec_digits(k0).is_prefix_of(s.skip(j2)),
        s.len() > j2 + dec_digits(k0).len(),
        s[j2 + dec_digits(k0).len() as int] == ',',
    ensures
        k0 == v as nat,
        j2 + dec_digits(k0).len() == j3,
{
    sub_is_prefix(s, j2, j3);
    assert(dec_digits(v as nat).is_prefix_of(s.skip(j2)));
    assert(s.skip(j2).len() == s.len() - j2);
    assert(!is_digit(','));
    lemma_number_det(k0, v as nat, s.skip(j2));
}

/// After one member has been read, any member list the document could hold
/// starts with that member, and the separator that follows decides whether
/// the list goes on.
proof fn members_list_align(
    s: Seq<char>,
    i: int,
    j1: int,
    m0: MemberModel,
    ms: Seq<MemberModel>,
)
    requires
        0 <= i <= j1 <= s.len(),
        s.subrange(i, j1) == enc_member(m0),
        (enc_members(ms) + seq![']']).is_prefix_of(s.skip(i)),
        fits_members(ms),
    ensures
        ms.len() >= 1,
        ms[0] == m0,
        j1 < s.len(),
        ms.len() == 1 ==> s[j1] == ']',
        ms.len() >= 2 ==> s[j1] == ',' && (enc_members(ms.drop_first()) + seq![']']).is_prefix_of(
            s.skip(j1 + 1),
        ) && fits_members(ms.drop_first()),
{
    crate::laws::lemma_tok_facts();
    let u = s.skip(i);
    if ms.len() == 0 {
        assert(enc_members(ms) + seq![']'] =~= seq![']']);
        lemma_prefix_first(enc_members(ms) + seq![']'], u);
        assert(u[0] == ']');
        crate::laws::lemma_enc_member_first(m0);
        sub_is_prefix(s, i, j1);
        lemma_prefix_first(enc_member(m0), u);
        assert(u[0] == '{');
        assert(false);
    }
    if ms.len() == 1 {
        lemma_prefix_parts(enc_member(ms[0]), seq![']'], u);
    } else {
        assert(enc_members(ms) + seq![']'] =~= enc_member(ms[0]) + (","@ + enc_members(
            ms.drop_first(),
        ) + seq![']']));
        lemma_prefix_parts(enc_member(ms[0]), ","@ + enc_members(ms.drop_first()) + seq![']'], u);
    }
    sub_is_prefix(s, i, j1);
    crate::laws::lemma_member_det(ms[0], m0, u);
    let el = enc_member(m0).len() as int;
    assert(j1 == i + el);
    assert(u.skip(el) =~= s.skip(j1));
    if ms.len() == 1 {
        lemma_prefix_first(seq![']'], u.skip(el));
        assert(s[j1] == ']');
    } else {
        assert((","@ + enc_members(ms.drop_first()) + seq![']']) =~= ","@ + (enc_members(
            ms.drop_first(),
        ) + seq![']']));
        lemma_prefix_parts(","@, enc_members(ms.drop_first()) + seq![']'], u.skip(el));
        lemma_prefix_first(","@, u.skip(el));
        assert(s[j1] == ',');
        assert(u.skip(el).skip(1) =~= s.skip(j1 + 1));
    }
}

/// Parses one input document at position `i`.
#[verifier::rlimit(100)]
fn parse_input(s: &str, n: usize, i: usize) -> (r: Result<(AbiInput, usize), DecodeError>)
    requires
        n == s@.len(),
        i <= n,
    ensures
        match r {
            Ok((inp, j)) => i <= j <= n && s@.subrange(i as int, j as int) == enc_input(
                inp.model(),
            ),
            Err(_) => forall|im: InputModel|
                fits_ty(im.ty) ==> !(#[trigger] enc_input(im)).is_prefix_of(s@.skip(i as int)),
        },
{
    let u = Ghost(s@.skip(i as int));
    proof {
        crate::laws::lemma_tok_facts();
    }
    let j0 = match expect_tok(s, n, i, "{\"name\":") {
        Ok(j) => j,
        Err(e) => {
            proof {
                assert forall|im: InputModel| fits_ty(im.ty) implies !(
                #[trigger] enc_input(im)).is_prefix_of(u@) by {
                    if enc_input(im).is_prefix_of(u@) {
                        lemma_input_at(im, u@);
                        assert(false);
                    }
                }
            }
            return Err(e);
        },
    };
    proof {
        assert(u@.skip(8) =~= s@.skip(j0 as int));
    }
    let (name, j1) = match parse_quoted(s, n, j0) {
        Ok(p) => p,
        Err(e) => {
            proof {
                assert forall|im: InputModel| fits_ty(im.ty) implies !(
                #[trigger] enc_input(im)).is_prefix_of(u@) by {
                    if enc_input(im).is_prefix_of(u@) {
                        lemma_input_at(im, u@);
                        assert(quoted(im.name).is_prefix_of(s@.skip(j0 as int)));
                        assert(false);
                    }
                }
            }
            return Err(e);
        },
    };
    proof {
        sub_is_prefix(s@, j0 as int, j1 as int);
    }
    let j2 = match expect_tok(s, n, j1, ",\"public\":") {
        Ok(j) => j,
        Err(e) => {
            proof {
                assert forall|im: InputModel| fits_ty(im.ty) implies !(
                #[trigger] enc_input(im)).is_prefix_of(u@) by {
                    if enc_input(im).is_prefix_of(u@) {
                        lemma_input_at(im, u@);
                        crate::laws::lemma_quoted_det(im.name, name@, s@.skip(j0 as int));
                        assert(u@.skip(8 + quoted(name@).len() as int) =~= s@.skip(j1 as int));
                        assert(false);
                    }
                }
            }
            return Err(e);
        },
    };
    proof {
        assert(u@.skip(18 + quoted(name@).len() as int) =~= s@.skip(j2 as int));
    }
    let r_true = expect_tok(s, n, j2, "true");
    let r_false = if r_true.is_err() {
        expect_tok(s, n, j2, "false")
    } else {
        Ok(0)
    };
    let (public, j3): (bool, usize) = if let Ok(j) = r_true {
        (true, j)
    } else {
        match r_false {
            Ok(j) => (false, j),
            Err(e) => {
                proof {
                    assert forall|im: InputModel| fits_ty(im.ty) implies !(
                    #[trigger] enc_input(im)).is_prefix_of(u@) by {
                        if enc_input(im).is_prefix_of(u@) {
                            lemma_input_at(im, u@);
                            crate::laws::lemma_quoted_det(im.name, name@, s@.skip(j0 as int));
                            assert(false);
                        }
                    }
                }
                return Err(e);
            },
        }
    };
    proof {
        sub_is_prefix(s@, j2 as int, j3 as int);
    }
    let j4 = match expect_tok(s, n, j3, ",") {
        Ok(j) => j,
        Err(e) => {
            proof {
                assert forall|im: InputModel| fits_ty(im.ty) implies !(
                #[trigger] enc_input(im)).is_prefix_of(u@) by {
                    if enc_input(im).is_prefix_of(u@) {
                        lemma_input_at(im, u@);
                        crate::laws::lemma_quoted_det(im.name, name@, s@.skip(j0 as int));
                        input_public_det(s@, j2 as int, j3 as int, public, im);
                        assert(u@[18 + quoted(name@).len() as int + (if im.public {
                            4int
                        } else {
                            5int
                        })] == ',');
                        assert(s@[j3 as int] == ',');
                        crate::laws::lemma_char_prefix(',', s@.skip(j3 as int));
                        assert(","@ =~= seq![',']);
                        assert(false);
                    }
                }
            }
            return Err(e);
        },
    };
    let (ty, j5) = match parse_ty_body(s, n, j4) {
        Ok(p) => p,
        Err(e) => {
            proof {
                assert forall|im: InputModel| fits_ty(im.ty) implies !(
                #[trigger] enc_input(im)).is_prefix_of(u@) by {
                    if enc_input(im).is_prefix_of(u@) {
                        lemma_input_at(im, u@);
                        crate::laws::lemma_quoted_det(im.name, name@, s@.skip(j0 as int));
                        input_public_det(s@, j2 as int, j3 as int, public, im);
                        assert(u@.skip(19 + quoted(name@).len() as int + (if im.public {
                            4int
                        } else {
                            5int
                        })) =~= s@.skip(j4 as int));
                        assert(enc_ty_body(im.ty).is_prefix_of(s@.skip(j4 as int)));
                        assert(false);
                    }
                }
            }
            return Err(e);
        },
    };
    proof {
        sub_is_prefix(s@, j4 as int, j5 as int);
    }
    let j6 = match expect_tok(s, n, j5, "}") {
        Ok(j) => j,
        Err(e) => {
            proof {
                assert forall|im: InputModel| fits_ty(im.ty) implies !(
                #[trigger] enc_input(im)).is_prefix_of(u@) by {
                    if enc_input(im).is_prefix_of(u@) {
                        lemma_input_at(im, u@);
                        crate::laws::lemma_quoted_det(im.name, name@, s@.skip(j0 as int));
                        input_public_det(s@, j2 as int, j3 as int, public, im);
                        assert(u@.skip(19 + quoted(name@).len() as int + (if im.public {
                            4int
                        } else {
                            5int
                        })) =~= s@.skip(j4 as int));
                        crate::laws::lemma_ty_body_det(im.ty, ty.model(), s@.skip(j4 as int));
                        assert(u@[19 + quoted(name@).len() as int + (if im.public {
                            4int
                        } else {
                            5int
                        }) + enc_ty_body(ty.model()).len() as int] == '}');
                        assert(s@[j5 as int] == '}');
                        crate::laws::lemma_char_prefix('}', s@.skip(j5 as int));
                        assert("}"@ =~= seq!['}']);
                        assert(false);
                    }
                }
            }
            return Err(e);
        },
    };
    let inp = AbiInput { name, public, ty };
    proof {
        assert(s@.subrange(i as int, j6 as int) =~= s@.subrange(i as int, j0 as int)
            + s@.subrange(j0 as int, j1 as int) + s@.subrange(j1 as int, j2 as int)
            + s@.subrange(j2 as int, j3 as int) + s@.subrange(j3 as int, j4 as int)
            + s@.subrange(j4 as int, j5 as int) + s@.subrange(j5 as int, j6 as int));
        assert(s@.subrange(i as int, j6 as int) == enc_input(inp.model()));
    }
    Ok((inp, j6))
}

/// The visibility a document assigns to an input is the one that was read.
proof fn input_public_det(s: Seq<char>, j2: int, j3: int, public: bool, im: InputModel)
    requires
        0 <= j2 <= j3 <= s.len(),
        s.subrange(j2, j3) == (if public {
            "true"@
        } else {
            "false"@
        }),
        im.public ==> "true"@.is_prefix_of(s.skip(j2)),
        !im.public ==> "false"@.is_prefix_of(s.skip(j2)),
    ensures
        im.public == public,
        j3 == j2 + (if im.public {
            4int
        } else {
            5int
        }),
{
    crate::laws::lemma_tok_facts();
    sub_is_prefix(s, j2, j3);
    let bt = if public {
        "true"@
    } else {
        "false"@
    };
    let bi = if im.public {
        "true"@
    } else {
        "false"@
    };
    lemma_prefix_first(bt, s.skip(j2));
    lemma_prefix_first(bi, s.skip(j2));
    assert(bt[0] == bi[0]);
    if public != im.public {
        assert(false);
    }
}

/// Parses a comma-separated input list closed by a bracket at position `i`,
/// consuming the bracket.
fn parse_inputs(s: &str, n: usize, i: usize) -> (r: Result<(Vec<AbiInput>, usize), DecodeError>)
    requires
        n == s@.len(),
        i <= n,
    ensures
        match r {
            Ok((v, j)) => i <= j <= n && s@.subrange(i as int, j as int) == enc_inputs(
                input_models(v@),
            ) + seq![']'],
            Err(_) => forall|ims: Seq<InputModel>|
                fits_inputs(ims) ==> !((#[trigger] enc_inputs(ims)) + seq![']']).is_prefix_of(
                    s@.skip(i as int),
                ),
        },
    decreases n - i,
{
    let u = Ghost(s@.skip(i as int));
    proof {
        crate::laws::lemma_tok_facts();
    }
    if i < n {
        let c = s.get_char(i);
        if c == ']' {
            let v: Vec<AbiInput> = Vec::new();
            proof {
                assert(input_models(v@) =~= Seq::<InputModel>::empty());
                assert(enc_inputs(input_models(v@)) + seq![']'] =~= s@.subrange(i as int, i + 1));
            }
            return Ok((v, i + 1));
        }
    }
    let (inp, j1) = match parse_input(s, n, i) {
        Ok(p) => p,
        Err(e) => {
            proof {
                assert forall|ims: Seq<InputModel>| fits_inputs(ims) implies !((
                #[trigger] enc_inputs(ims)) + seq![']']).is_prefix_of(u@) by {
                    if (enc_inputs(ims) + seq![']']).is_prefix_of(u@) {
                        if ims.len() == 0 {
                            assert(enc_inputs(ims) + seq![']'] =~= seq![']']);
                            lemma_prefix_first(enc_inputs(ims) + seq![']'], u@);
                            assert(u@[0] == ']');
                            assert(i < n && s@[i as int] == ']');
                            assert(false);
                        } else {
                            if ims.len() == 1 {
                                lemma_prefix_parts(enc_input(ims[0]), seq![']'], u@);
                            } else {
                                assert(enc_inputs(ims) + seq![']'] =~= enc_input(ims[0]) + (","@
                                    + enc_inputs(ims.drop_first()) + seq![']']));
                                lemma_prefix_parts(
                                    enc_input(ims[0]),
                                    ","@ + enc_inputs(ims.drop_first()) + seq![']'],
                                    u@,
                                );
                            }
                            assert(enc_input(ims[0]).is_prefix_of(u@));
                            assert(fits_ty(ims[0].ty));
                            assert(false);
                        }
                    }
                }
            }
            return Err(e);
        },
    };
    proof {
        sub_is_prefix(s@, i as int, j1 as int);
        crate::laws::lemma_enc_input_first(inp.model());
    }
    let sep_comma = j1 < n && s.get_char(j1) == ',';
    let sep_close = !sep_comma && j1 < n && s.get_char(j1) == ']';
    if sep_comma {
        match parse_inputs(s, n, j1 + 1) {
            Ok((rest, j2)) => {
                if rest.is_empty() {
                    proof {
                        assert(input_models(rest@) =~= Seq::<InputModel>::empty());
                        assert(enc_inputs(input_models(rest@)) + seq![']'] =~= seq![']']);
                        assert(s@.subrange(j1 + 1, j2 as int) =~= seq![']']);
                        assert(s@.subrange(j1 + 1, j2 as int)[0] == s@[j1 + 1]);
                        assert(s@[j1 + 1] == ']');
                        assert forall|ims: Seq<InputModel>| fits_inputs(ims) implies !((
                        #[trigger] enc_inputs(ims)) + seq![']']).is_prefix_of(u@) by {
                            if (enc_inputs(ims) + seq![']']).is_prefix_of(u@) {
                                inputs_list_align(s@, i as int, j1 as int, inp.model(), ims);
                                assert(ims.len() >= 2);
                                crate::laws::lemma_enc_input_first(ims.drop_first()[0]);
                                if ims.drop_first().len() == 1 {
                                } else {
                                    let a = enc_input(ims.drop_first()[0]) + ","@;
                                    assert(a[0] == enc_input(ims.drop_first()[0])[0]);
                                    assert(enc_inputs(ims.drop_first())[0] == a[0]);
                                }
                                lemma_prefix_first(
                                    enc_inputs(ims.drop_first()) + seq![']'],
                                    s@.skip(j1 + 1),
                                );
                                assert((enc_inputs(ims.drop_first()) + seq![']'])[0]
                                    == enc_inputs(ims.drop_first())[0]);
                                assert(s@[j1 + 1] == '{');
                                assert(false);
                            }
                        }
                    }
                    return Err(DecodeError::ExpectedToken { at: j1 + 1 });
                }
                let mut v: Vec<AbiInput> = Vec::new();
                v.push(inp);
                let mut rest_m = rest;
                v.append(&mut rest_m);
                proof {
                    crate::abi::lemma_input_models_pointwise(v@);
                    crate::abi::lemma_input_models_pointwise(rest@);
                    let mo = input_models(v@);
                    assert(mo.len() >= 2);
                    assert(mo[0] == inp.model());
                    assert(mo.drop_first() =~= input_models(rest@));
                    assert(s@.subrange(i as int, j2 as int) =~= s@.subrange(i as int, j1 as int)
                        + s@.subrange(j1 as int, j1 + 1) + s@.subrange(j1 + 1, j2 as int));
                    assert(s@.subrange(j1 as int, j1 + 1) =~= ","@);
                    assert(enc_inputs(mo) == enc_input(mo[0]) + ","@ + enc_inputs(
                        mo.drop_first(),
                    ));
                    assert(s@.subrange(i as int, j2 as int) =~= enc_inputs(mo) + seq![']']);
                }
                return Ok((v, j2));
            },
            Err(e) => {
                proof {
                    assert forall|ims: Seq<InputModel>| fits_inputs(ims) implies !((
                    #[trigger] enc_inputs(ims)) + seq![']']).is_prefix_of(u@) by {
                        if (enc_inputs(ims) + seq![']']).is_prefix_of(u@) {
                            inputs_list_align(s@, i as int, j1 as int, inp.model(), ims);
                            assert(ims.len() >= 2);
                            assert((enc_inputs(ims.drop_first()) + seq![']']).is_prefix_of(
                                s@.skip(j1 + 1),
                            ));
                            assert(fits_inputs(ims.drop_first()));
                            assert(false);
                        }
                    }
                }
                return Err(e);
            },
        }
    } else if sep_close {
        let mut v: Vec<AbiInput> = Vec::new();
        v.push(inp);
        proof {
            crate::abi::lemma_input_models_pointwise(v@);
            let mo = input_models(v@);
            assert(mo.len() == 1);
            assert(mo[0] == inp.model());
            assert(enc_inputs(mo) == enc_input(inp.model()));
            assert(s@.subrange(i as int, j1 + 1) =~= s@.subrange(i as int, j1 as int) + seq![
                ']',
            ]);
        }
        return Ok((v, j1 + 1));
    } else {
        proof {
            assert forall|ims: Seq<InputModel>| fits_inputs(ims) implies !((
            #[trigger] enc_inputs(ims)) + seq![']']).is_prefix_of(u@) by {
                if (enc_inputs(ims) + seq![']']).is_prefix_of(u@) {
                    inputs_list_align(s@, i as int, j1 as int, inp.model(), ims);
                    assert(false);
                }
            }
        }
        return Err(DecodeError::ExpectedToken { at: j1 });
    }
}

/// After one input has been read, any input list the document could hold
/// starts with that input, and the separator that follows decides whether
/// the list goes on.
proof fn inputs_list_align(s: Seq<char>, i: int, j1: int, i0: InputModel, ims: Seq<InputModel>)
    requires
        0 <= i <= j1 <= s.len(),
        s.subrange(i, j1) == enc_input(i0),
        (enc_inputs(ims) + seq![']']).is_prefix_of(s.skip(i)),
        fits_inputs(ims),
    ensures
        ims.len() >= 1,
        ims[0] == i0,
        j1 < s.len(),
        ims.len() == 1 ==> s[j1] == ']',
        ims.len() >= 2 ==> s[j1] == ',' && (enc_inputs(ims.drop_first()) + seq![']']).is_prefix_of(
            s.skip(j1 + 1),
        ) && fits_inputs(ims.drop_first()),
{
    crate::laws::lemma_tok_facts();
    let u = s.skip(i);
    if ims.len() == 0 {
        assert(enc_inputs(ims) + seq![']'] =~= seq![']']);
        lemma_prefix_first(enc_inputs(ims) + seq![']'], u);
        assert(u[0] == ']');
        crate::laws::lemma_enc_input_first(i0);
        sub_is_prefix(s, i, j1);
        lemma_prefix_first(enc_input(i0), u);
        assert(u[0] == '{');
        assert(false);
    }
    if ims.len() == 1 {
        lemma_prefix_parts(enc_input(ims[0]), seq![']'], u);
    } else {
        assert(enc_inputs(ims) + seq![']'] =~= enc_input(ims[0]) + (","@ + enc_inputs(
            ims.drop_first(),
        ) + seq![']']));
        lemma_prefix_parts(enc_input(ims[0]), ","@ + enc_inputs(ims.drop_first()) + seq![']'], u);
    }
    sub_is_prefix(s, i, j1);
    crate::laws::lemma_input_det(ims[0], i0, u);
    let el = enc_input(i0).len() as int;
    assert(j1 == i + el);
    assert(u.skip(el) =~= s.skip(j1));
    if ims.len() == 1 {
        lemma_prefix_first(seq![']'], u.skip(el));
        assert(s[j1] == ']');
    } else {
        assert((","@ + enc_inputs(ims.drop_first()) + seq![']']) =~= ","@ + (enc_inputs(
            ims.drop_first(),
        ) + seq![']']));
        lemma_prefix_parts(","@, enc_inputs(ims.drop_first()) + seq![']'], u.skip(el));
        lemma_prefix_first(","@, u.skip(el));
        assert(s[j1] == ',');
        assert(u.skip(el).skip(1) =~= s.skip(j1 + 1));
    }
}

/// Parses one bare type document at position `i`.
fn parse_ty(s: &str, n: usize, i: usize) -> (r: Result<(ConcreteType, usize), DecodeError>)
    requires
        n == s@.len(),
        i <= n,
    ensures
        match r {
            Ok((t, j)) => i <= j <= n && s@.subrange(i as int, j as int) == enc_ty(t.model()),
            Err(_) => forall|x: TypeModel|
                fits_ty(x) ==> !(#[trigger] enc_ty(x)).is_prefix_of(s@.skip(i as int)),
        },
{
    let u = Ghost(s@.skip(i as int));
    proof {
        crate::laws::lemma_tok_facts();
    }
    let j0 = match expect_tok(s, n, i, "{") {
        Ok(j) => j,
        Err(e) => {
            proof {
                assert forall|x: TypeModel| fits_ty(x) implies !(
                #[trigger] enc_ty(x)).is_prefix_of(u@) by {
                    if enc_ty(x).is_prefix_of(u@) {
                        crate::laws::lemma_enc_ty_at(x, u@);
                        crate::laws::lemma_char_prefix('{', u@);
                        assert("{"@ =~= seq!['{']);
                        assert(false);
                    }
                }
            }
            return Err(e);
        },
    };
    proof {
        assert(u@.skip(1) =~= s@.skip(j0 as int));
    }
    let (ty, j1) = match parse_ty_body(s, n, j0) {
        Ok(p) => p,
        Err(e) => {
            proof {
                assert forall|x: TypeModel| fits_ty(x) implies !(
                #[trigger] enc_ty(x)).is_prefix_of(u@) by {
                    if enc_ty(x).is_prefix_of(u@) {
                        crate::laws::lemma_enc_ty_at(x, u@);
                        assert(enc_ty_body(x).is_prefix_of(s@.skip(j0 as int)));
                        assert(false);
                    }
                }
            }
            return Err(e);
        },
    };
    proof {
        sub_is_prefix(s@, j0 as int, j1 as int);
    }
    let j2 = match expect_tok(s, n, j1, "}") {
        Ok(j) => j,
        Err(e) => {
            proof {
                assert forall|x: TypeModel| fits_ty(x) implies !(
                #[trigger] enc_ty(x)).is_prefix_of(u@) by {
                    if enc_ty(x).is_prefix_of(u@) {
                        crate::laws::lemma_enc_ty_at(x, u@);
                        crate::laws::lemma_ty_body_det(x, ty.model(), s@.skip(j0 as int));
                        assert(u@[1 + enc_ty_body(ty.model()).len() as int] == '}');
                        assert(s@[j1 as int] == '}');
                        crate::laws::lemma_char_prefix('}', s@.skip(j1 as int));
                        assert("}"@ =~= seq!['}']);
                        assert(false);
                    }
                }
            }
            return Err(e);
        },
    };
    proof {
        assert(s@.subrange(i as int, j2 as int) =~= s@.subrange(i as int, j0 as int)
            + s@.subrange(j0 as int, j1 as int) + s@.subrange(j1 as int, j2 as int));
        assert(s@.subrange(i as int, j2 as int) == enc_ty(ty.model()));
    }
    Ok((ty, j2))
}

/// Parses a comma-separated output list closed by a bracket at position
/// `i`, consuming the bracket.
fn parse_outputs(s: &str, n: usize, i: usize) -> (r: Result<(Vec<ConcreteType>, usize), DecodeError>)
    requires
        n == s@.len(),
        i <= n,
    ensures
        match r {
            Ok((v, j)) => i <= j <= n && s@.subrange(i as int, j as int) == enc_outputs(
                type_models(v@),
            ) + seq![']'],
            Err(_) => forall|ts: Seq<TypeModel>|
                fits_types(ts) ==> !((#[trigger] enc_outputs(ts)) + seq![']']).is_prefix_of(
                    s@.skip(i as int),
                ),
        },
    decreases n - i,
{
    let u = Ghost(s@.skip(i as int));
    proof {
        crate::laws::lemma_tok_facts();
    }
    if i < n {
        let c = s.get_char(i);
        if c == ']' {
            let v: Vec<ConcreteType> = Vec::new();
            proof {
                assert(type_models(v@) =~= Seq::<TypeModel>::empty());
                assert(enc_outputs(type_models(v@)) + seq![']'] =~= s@.subrange(i as int, i + 1));
            }
            return Ok((v, i + 1));
        }
    }
    let (ty, j1) = match parse_ty(s, n, i) {
        Ok(p) => p,
        Err(e) => {
            proof {
                assert forall|ts: Seq<TypeModel>| fits_types(ts) implies !((
                #[trigger] enc_outputs(ts)) + seq![']']).is_prefix_of(u@) by {
                    if (enc_outputs(ts) + seq![']']).is_prefix_of(u@) {
                        if ts.len() == 0 {
                            assert(enc_outputs(ts) + seq![']'] =~= seq![']']);
                            lemma_prefix_first(enc_outputs(ts) + seq![']'], u@);
                            assert(u@[0] == ']');
                            assert(i < n && s@[i as int] == ']');
                            assert(false);
                        } else {
                            if ts.len() == 1 {
                                lemma_prefix_parts(enc_ty(ts[0]), seq![']'], u@);
                            } else {
                                assert(enc_outputs(ts) + seq![']'] =~= enc_ty(ts[0]) + (","@
                                    + enc_outputs(ts.drop_first()) + seq![']']));
                                lemma_prefix_parts(
                                    enc_ty(ts[0]),
                                    ","@ + enc_outputs(ts.drop_first()) + seq![']'],
                                    u@,
                                );
                            }
                            assert(enc_ty(ts[0]).is_prefix_of(u@));
                            assert(fits_ty(ts[0]));
                            assert(false);
                        }
                    }
                }
            }
            return Err(e);
        },
    };
    proof {
        sub_is_prefix(s@, i as int, j1 as int);
        crate::laws::lemma_enc_ty_first(ty.model());
    }
    let sep_comma = j1 < n && s.get_char(j1) == ',';
    let sep_close = !sep_comma && j1 < n && s.get_char(j1) == ']';
    if sep_comma {
        match parse_outputs(s, n, j1 + 1) {
            Ok((rest, j2)) => {
                if rest.is_empty() {
                    proof {
                        assert(type_models(rest@) =~= Seq::<TypeModel>::empty());
                        assert(enc_outputs(type_models(rest@)) + seq![']'] =~= seq![']']);
                        assert(s@.subrange(j1 + 1, j2 as int) =~= seq![']']);
                        assert(s@.subrange(j1 + 1, j2 as int)[0] == s@[j1 + 1]);
                        assert(s@[j1 + 1] == ']');
                        assert forall|ts: Seq<TypeModel>| fits_types(ts) implies !((
                        #[trigger] enc_outputs(ts)) + seq![']']).is_prefix_of(u@) by {
                            if (enc_outputs(ts) + seq![']']).is_prefix_of(u@) {
                                outputs_list_align(s@, i as int, j1 as int, ty.model(), ts);
                                assert(ts.len() >= 2);
                                crate::laws::lemma_enc_ty_first(ts.drop_first()[0]);
                                if ts.drop_first().len() == 1 {
                                } else {
                                    let a = enc_ty(ts.drop_first()[0]) + ","@;
                                    assert(a[0] == enc_ty(ts.drop_first()[0])[0]);
                                    assert(enc_outputs(ts.drop_first())[0] == a[0]);
                                }
                                lemma_prefix_first(
                                    enc_outputs(ts.drop_first()) + seq![']'],
                                    s@.skip(j1 + 1),
                                );
                                assert((enc_outputs(ts.drop_first()) + seq![']'])[0]
                                    == enc_outputs(ts.drop_first())[0]);
                                assert(s@[j1 + 1] == '{');
                                assert(false);
                            }
                        }
                    }
                    return Err(DecodeError::ExpectedToken { at: j1 + 1 });
                }
                let mut v: Vec<ConcreteType> = Vec::new();
                v.push(ty);
                let mut rest_m = rest;
                v.append(&mut rest_m);
                proof {
                    crate::abi::lemma_type_models_pointwise(v@);
                    crate::abi::lemma_type_models_pointwise(rest@);
                    let mo = type_models(v@);
                    assert(mo.len() >= 2);
                    assert(mo[0] == ty.model());
                    assert(mo.drop_first() =~= type_models(rest@));
                    assert(s@.subrange(i as int, j2 as int) =~= s@.subrange(i as int, j1 as int)
                        + s@.subrange(j1 as int, j1 + 1) + s@.subrange(j1 + 1, j2 as int));
                    assert(s@.subrange(j1 as int, j1 + 1) =~= ","@);
                    assert(enc_outputs(mo) == enc_ty(mo[0]) + ","@ + enc_outputs(
                        mo.drop_first(),
                    ));
                    assert(s@.subrange(i as int, j2 as int) =~= enc_outputs(mo) + seq![']']);
                }
                return Ok((v, j2));
            },
            Err(e) => {
                proof {
                    assert forall|ts: Seq<TypeModel>| fits_types(ts) implies !((
                    #[trigger] enc_outputs(ts)) + seq![']']).is_prefix_of(u@) by {
                        if (enc_outputs(ts) + seq![']']).is_prefix_of(u@) {
                            outputs_list_align(s@, i as int, j1 as int, ty.model(), ts);
                            assert(ts.len() >= 2);
                            assert((enc_outputs(ts.drop_first()) + seq![']']).is_prefix_of(
                                s@.skip(j1 + 1),
                            ));
                            assert(fits_types(ts.drop_first()));
                            assert(false);
                        }
                    }
                }
                return Err(e);
            },
        }
    } else if sep_close {
        let mut v: Vec<ConcreteType> = Vec::new();
        v.push(ty);
        proof {
            crate::abi::lemma_type_models_pointwise(v@);
            let mo = type_models(v@);
            assert(mo.len() == 1);
            assert(mo[0] == ty.model());
            assert(enc_outputs(mo) == enc_ty(ty.model()));
            assert(s@.subrange(i as int, j1 + 1) =~= s@.subrange(i as int, j1 as int) + seq![
                ']',
            ]);
        }
        return Ok((v, j1 + 1));
    } else {
        proof {
            assert forall|ts: Seq<TypeModel>| fits_types(ts) implies !((
            #[trigger] enc_outputs(ts)) + seq![']']).is_prefix_of(u@) by {
                if (enc_outputs(ts) + seq![']']).is_prefix_of(u@) {
                    outputs_list_align(s@, i as int, j1 as int, ty.model(), ts);
                    assert(false);
                }
            }
        }
        return Err(DecodeError::ExpectedToken { at: j1 });
    }
}

/// After one output type has been read, any output list the document could
/// hold starts with that type, and the separator that follows decides
/// whether the list goes on.
proof fn outputs_list_align(s: Seq<char>, i: int, j1: int, t0: TypeModel, ts: Seq<TypeModel>)
    requires
        0 <= i <= j1 <= s.len(),
        s.subrange(i, j1) == enc_ty(t0),
        (enc_outputs(ts) + seq![']']).is_prefix_of(s.skip(i)),
        fits_types(ts),
    ensures
        ts.len() >= 1,
        ts[0] == t0,
        j1 < s.len(),
        ts.len() == 1 ==> s[j1] == ']',
        ts.len() >= 2 ==> s[j1] == ',' && (enc_outputs(ts.drop_first()) + seq![']']).is_prefix_of(
            s.skip(j1 + 1),
        ) && fits_types(ts.drop_first()),
{
    crate::laws::lemma_tok_facts();
    let u = s.skip(i);
    if ts.len() == 0 {
        assert(enc_outputs(ts) + seq![']'] =~= seq![']']);
        lemma_prefix_first(enc_outputs(ts) + seq![']'], u);
        assert(u[0] == ']');
        crate::laws::lemma_enc_ty_first(t0);
        sub_is_prefix(s, i, j1);
        lemma_prefix_first(enc_ty(t0), u);
        assert(u[0] == '{');
        assert(false);
    }
    if ts.len() == 1 {
        lemma_prefix_parts(enc_ty(ts[0]), seq![']'], u);
    } else {
        assert(enc_outputs(ts) + seq![']'] =~= enc_ty(ts[0]) + (","@ + enc_outputs(
            ts.drop_first(),
        ) + seq![']']));
        lemma_prefix_parts(enc_ty(ts[0]), ","@ + enc_outputs(ts.drop_first()) + seq![']'], u);
    }
    sub_is_prefix(s, i, j1);
    crate::laws::lemma_output_det(ts[0], t0, u);
    let el = enc_ty(t0).len() as int;
    assert(j1 == i + el);
    assert(u.skip(el) =~= s.skip(j1));
    if ts.len() == 1 {
        lemma_prefix_first(seq![']'], u.skip(el));
        assert(s[j1] == ']');
    } else {
        assert((","@ + enc_outputs(ts.drop_first()) + seq![']']) =~= ","@ + (enc_outputs(
            ts.drop_first(),
        ) + seq![']']));
        lemma_prefix_parts(","@, enc_outputs(ts.drop_first()) + seq![']'], u.skip(el));
        lemma_prefix_first(","@, u.skip(el));
        assert(s[j1] == ',');
        assert(u.skip(el).skip(1) =~= s.skip(j1 + 1));
    }
}

impl Abi {
    /// Decodes a canonical ABI document.
    ///
    /// Succeeds exactly on the character sequences `Abi::encode` produces
    /// for some representable document, and then returns the unique
    /// document whose encoding is the input; every other input is rejected
    /// with an error that names a position and, through
    /// `DecodeError::message`, describes the failure.
    #[verifier::rlimit(100)]
    pub fn decode(s: &str) -> (r: Result<Abi, DecodeError>)
        ensures
            match r {
                Ok(a) => s@ == enc_abi(a.model()),
                Err(_) => forall|am: AbiModel| fits_abi(am) ==> s@ != #[trigger] enc_abi(am),
            },
    {
        let n = s.unicode_len();
        proof {
            crate::laws::lemma_tok_facts();
            assert(s@.skip(0) =~= s@);
        }
        let j0 = match expect_tok(s, n, 0, "{\"inputs\":[") {
            Ok(j) => j,
            Err(e) => {
                proof {
                    assert forall|am: AbiModel| fits_abi(am) implies s@ != #[trigger] enc_abi(am) by {
                        if s@ == enc_abi(am) {
                            self_prefix(s@);
                            crate::laws::lemma_abi_at(am, s@);
                            assert(false);
                        }
                    }
                }
                return Err(e);
            },
        };
        let (inputs, j1) = match parse_inputs(s, n, j0) {
            Ok(p) => p,
            Err(e) => {
                proof {
                    assert forall|am: AbiModel| fits_abi(am) implies s@ != #[trigger] enc_abi(am) by {
                        if s@ == enc_abi(am) {
                            self_prefix(s@);
                            crate::laws::lemma_abi_at(am, s@);
                            assert(s@.skip(0).skip(11) =~= s@.skip(j0 as int));
                            assert((enc_inputs(am.inputs) + seq![']']).is_prefix_of(
                                s@.skip(j0 as int),
                            ));
                            assert(fits_inputs(am.inputs));
                            assert(false);
                        }
                    }
                }
                return Err(e);
            },
        };
        proof {
            sub_is_prefix(s@, j0 as int, j1 as int);
        }
        let j2 = match expect_tok(s, n, j1, ",\"outputs\":[") {
            Ok(j) => j,
            Err(e) => {
                proof {
                    assert forall|am: AbiModel| fits_abi(am) implies s@ != #[trigger] enc_abi(am) by {
                        if s@ == enc_abi(am) {
                            self_prefix(s@);
                            crate::laws::lemma_abi_at(am, s@);
                            crate::laws::lemma_inputs_det(
                                am.inputs,
                                input_models(inputs@),
                                s@.skip(j0 as int),
                            );
                            assert(s@.skip(12 + enc_inputs(input_models(inputs@)).len() as int)
                                =~= s@.skip(j1 as int));
                            assert(false);
                        }
                    }
                }
                return Err(e);
            },
        };
        let (outputs, j3) = match parse_outputs(s, n, j2) {
            Ok(p) => p,
            Err(e) => {
                proof {
                    assert forall|am: AbiModel| fits_abi(am) implies s@ != #[trigger] enc_abi(am) by {
                        if s@ == enc_abi(am) {
                            self_prefix(s@);
                            crate::laws::lemma_abi_at(am, s@);
                            crate::laws::lemma_inputs_det(
                                am.inputs,
                                input_models(inputs@),
                                s@.skip(j0 as int),
                            );
                            assert(s@.skip(24 + enc_inputs(input_models(inputs@)).len() as int)
                                =~= s@.skip(j2 as int));
                            assert((enc_outputs(am.outputs) + seq![']']).is_prefix_of(
                                s@.skip(j2 as int),
                            ));
                            assert(fits_types(am.outputs));
                            assert(false);
                        }
                    }
                }
                return Err(e);
            },
        };
        proof {
            sub_is_prefix(s@, j2 as int, j3 as int);
        }
        let j4 = match expect_tok(s, n, j3, "}") {
            Ok(j) => j,
            Err(e) => {
                proof {
                    assert forall|am: AbiModel| fits_abi(am) implies s@ != #[trigger] enc_abi(am) by {
                        if s@ == enc_abi(am) {
                            self_prefix(s@);
                            crate::laws::lemma_abi_at(am, s@);
                            crate::laws::lemma_inputs_det(
                                am.inputs,
                                input_models(inputs@),
                                s@.skip(j0 as int),
                            );
                            assert(s@.skip(24 + enc_inputs(input_models(inputs@)).len() as int)
                                =~= s@.skip(j2 as int));
                            crate::laws::lemma_outputs_det(
                                am.outputs,
                                type_models(outputs@),
                                s@.skip(j2 as int),
                            );
                            assert(s@[25 + enc_inputs(input_models(inputs@)).len() as int
                                + enc_outputs(type_models(outputs@)).len() as int] == '}');
                            assert(s@[j3 as int] == '}');
                            crate::laws::lemma_char_prefix('}', s@.skip(j3 as int));
                            assert("}"@ =~= seq!['}']);
                            assert(false);
                        }
                    }
                }
                return Err(e);
            },
        };
        let a = Abi { inputs, outputs };
        if j4 < n {
            proof {
                assert forall|am: AbiModel| fits_abi(am) implies s@ != #[trigger] enc_abi(am) by {
                    if s@ == enc_abi(am) {
                        self_prefix(s@);
                        assert(s@.subrange(0, j4 as int) =~= s@.subrange(0, j0 as int)
                            + s@.subrange(j0 as int, j1 as int) + s@.subrange(
                            j1 as int,
                            j2 as int,
                        ) + s@.subrange(j2 as int, j3 as int) + s@.subrange(
                            j3 as int,
                            j4 as int,
                        ));
                        assert("],\"outputs\":["@ == seq![']'] + ",\"outputs\":["@);
                        assert(s@.subrange(0, j4 as int) =~= enc_abi(a.model()));
                        sub_is_prefix(s@, 0, j4 as int);
                        assert(enc_abi(a.model()).is_prefix_of(s@));
                        crate::laws::lemma_abi_det(am, a.model(), s@);
                        assert(enc_abi(am).len() == s@.len());
                        assert(enc_abi(a.model()).len() < s@.len());
                        assert(false);
                    }
                }
            }
            return Err(DecodeError::TrailingCharacters { at: j4 });
        }
        proof {
            assert(s@.subrange(0, j4 as int) =~= s@.subrange(0, j0 as int) + s@.subrange(
                j0 as int,
                j1 as int,
            ) + s@.subrange(j1 as int, j2 as int) + s@.subrange(j2 as int, j3 as int)
                + s@.subrange(j3 as int, j4 as int));
            assert("],\"outputs\":["@ == seq![']'] + ",\"outputs\":["@);
            assert(s@.subrange(0, j4 as int) =~= enc_abi(a.model()));
            assert(s@.subrange(0, j4 as int) =~= s@);
        }
        Ok(a)
    }
}

/// A sequence is a prefix of itself.
proof fn self_prefix(s: Seq<char>)
    ensures
        s.is_prefix_of(s),
{
    assert(s =~= s.subrange(0, s.len() as int));
}

} // verus!
