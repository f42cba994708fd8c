//! Determinism of the canonical encoding.
//!
//! No encoded document is a proper prefix of another; in particular the
//! encoding is injective, so decoding an encoded document recovers the
//! original value exactly (the round-trip law).  The lemmas here establish
//! this construct by construct: quoted strings, numbers, type documents,
//! member and input lists, and whole ABI documents.

use vstd::prelude::*;

use crate::abi::{Abi, AbiModel, InputModel};
use crate::encode::{
    dec_digits, digit_char, enc_abi, enc_input, enc_inputs, enc_member, enc_members, enc_outputs,
    enc_ty, enc_ty_body, esc, esc_char, is_digit, quoted,
};
use crate::types::{MemberModel, TypeModel};

verus! {

/// Splits a prefix made of two parts: each part is a prefix in turn.
pub proof fn lemma_prefix_parts(a: Seq<char>, b: Seq<char>, t: Seq<char>)
    requires
        (a + b).is_prefix_of(t),
    ensures
        a.is_prefix_of(t),
        b.is_prefix_of(t.skip(a.len() as int)),
{
    assert forall|k: int| 0 <= k < a.len() implies a[k] == t[k] by {
        assert((a + b)[k] == a[k]);
        assert((a + b)[k] == t.subrange(0, (a + b).len() as int)[k]);
    }
    assert(a =~= t.subrange(0, a.len() as int));
    assert forall|k: int| 0 <= k < b.len() implies b[k] == t[a.len() + k] by {
        assert((a + b)[a.len() + k] == b[k]);
        assert((a + b)[a.len() + k] == t.subrange(0, (a + b).len() as int)[a.len() + k]);
    }
    assert(b =~= t.skip(a.len() as int).subrange(0, b.len() as int));
}

/// A nonempty prefix pins the first character.
pub proof fn lemma_prefix_first(p: Seq<char>, t: Seq<char>)
    requires
        p.is_prefix_of(t),
        p.len() >= 1,
    ensures
        t.len() >= 1,
        t[0] == p[0],
{
}

/// The escaped form of a nonempty string is nonempty, never starts with a
/// bare quote, and starts with a backslash exactly for escaped characters.
pub proof fn lemma_esc_first(w: Seq<char>)
    requires
        w.len() >= 1,
    ensures
        esc(w).len() >= 1,
        esc(w)[0] == esc_char(w[0])[0],
        esc(w)[0] != '"',
        (esc(w)[0] == '\\') == (w[0] == '"' || w[0] == '\\'),
        (w[0] == '"' || w[0] == '\\') ==> esc(w).len() >= 2 && esc(w)[1] == w[0],
        !(w[0] == '"' || w[0] == '\\') ==> esc(w)[0] == w[0],
{
    assert(esc(w) == esc_char(w[0]) + esc(w.drop_first()));
}

/// Two escaped strings closed by a quote and read from the same characters
/// are the same string.
pub proof fn lemma_esc_det(w1: Seq<char>, w2: Seq<char>, u: Seq<char>)
    requires
        (esc(w1) + seq!['"']).is_prefix_of(u),
        (esc(w2) + seq!['"']).is_prefix_of(u),
    ensures
        w1 == w2,
    decreases w1.len(),
{
    if w1.len() == 0 {
        lemma_prefix_first(esc(w1) + seq!['"'], u);
        assert((esc(w1) + seq!['"'])[0] == '"');
        assert(u[0] == '"');
        if w2.len() >= 1 {
            lemma_esc_first(w2);
            lemma_prefix_first(esc(w2) + seq!['"'], u);
            assert((esc(w2) + seq!['"'])[0] == esc(w2)[0]);
            assert(false);
        }
        assert(w1 =~= w2);
    } else if w2.len() == 0 {
        lemma_prefix_first(esc(w2) + seq!['"'], u);
        assert((esc(w2) + seq!['"'])[0] == '"');
        assert(u[0] == '"');
        lemma_esc_first(w1);
        lemma_prefix_first(esc(w1) + seq!['"'], u);
        assert((esc(w1) + seq!['"'])[0] == esc(w1)[0]);
        assert(false);
    } else {
        lemma_esc_first(w1);
        lemma_esc_first(w2);
        assert(esc(w1) + seq!['"'] =~= esc_char(w1[0]) + (esc(w1.drop_first()) + seq!['"']));
        assert(esc(w2) + seq!['"'] =~= esc_char(w2[0]) + (esc(w2.drop_first()) + seq!['"']));
        lemma_prefix_parts(esc_char(w1[0]), esc(w1.drop_first()) + seq!['"'], u);
        lemma_prefix_parts(esc_char(w2[0]), esc(w2.drop_first()) + seq!['"'], u);
        assert(u[0] == esc_char(w1[0])[0]);
        assert(u[0] == esc_char(w2[0])[0]);
        if w1[0] == '"' || w1[0] == '\\' {
            assert(u[0] == '\\');
            assert(w2[0] == '"' || w2[0] == '\\');
            assert(u[1] == esc_char(w1[0])[1]);
            assert(u[1] == esc_char(w2[0])[1]);
            assert(w1[0] == w2[0]);
        } else {
            assert(u[0] == w1[0]);
            if w2[0] == '"' || w2[0] == '\\' {
                assert(u[0] == '\\');
                assert(false);
            }
            assert(w1[0] == w2[0]);
        }
        assert(esc_char(w1[0]).len() == esc_char(w2[0]).len());
        lemma_esc_det(
            w1.drop_first(),
            w2.drop_first(),
            u.skip(esc_char(w1[0]).len() as int),
        );
        assert(w1.drop_first() == w2.drop_first());
        assert(w1.len() == w2.len());
        assert forall|k: int| 0 <= k < w1.len() implies w1[k] == w2[k] by {
            if k > 0 {
                assert(w1[k] == w1.drop_first()[k - 1]);
                assert(w2[k] == w2.drop_first()[k - 1]);
            }
        }
        assert(w1 =~= w2);
    }
}

/// Two quoted strings read from the same characters are the same string.
pub proof fn lemma_quoted_det(w1: Seq<char>, w2: Seq<char>, t: Seq<char>)
    requires
        quoted(w1).is_prefix_of(t),
        quoted(w2).is_prefix_of(t),
    ensures
        w1 == w2,
{
    assert(quoted(w1) =~= seq!['"'] + (esc(w1) + seq!['"']));
    assert(quoted(w2) =~= seq!['"'] + (esc(w2) + seq!['"']));
    lemma_prefix_parts(seq!['"'], esc(w1) + seq!['"'], t);
    lemma_prefix_parts(seq!['"'], esc(w2) + seq!['"'], t);
    lemma_esc_det(w1, w2, t.skip(1));
}

/// The canonical digits of a number: nonempty, all digits, and a leading
/// zero only for zero itself.
pub proof fn lemma_dec_digits_props(k: nat)
    ensures
        dec_digits(k).len() >= 1,
        forall|idx: int| 0 <= idx < dec_digits(k).len() ==> is_digit(#[trigger] dec_digits(k)[idx]),
        (dec_digits(k)[0] == '0') == (k == 0),
        k < 10 ==> dec_digits(k) == seq![digit_char(k)],
        k >= 10 ==> dec_digits(k).len() >= 2,
    decreases k,
{
    if k < 10 {
    } else {
        lemma_dec_digits_props(k / 10);
        assert(dec_digits(k) == dec_digits(k / 10) + seq![digit_char(k % 10)]);
        assert(dec_digits(k)[0] == dec_digits(k / 10)[0]);
        assert(k / 10 != 0);
        assert forall|idx: int| 0 <= idx < dec_digits(k).len() implies is_digit(
            #[trigger] dec_digits(k)[idx],
        ) by {
            if idx < dec_digits(k / 10).len() {
                assert(dec_digits(k)[idx] == dec_digits(k / 10)[idx]);
            } else {
                assert(dec_digits(k)[idx] == digit_char(k % 10));
            }
        }
    }
}

/// The canonical digits determine the number.
pub proof fn lemma_dec_digits_inj(k1: nat, k2: nat)
    requires
        dec_digits(k1) == dec_digits(k2),
    ensures
        k1 == k2,
    decreases k1,
{
    lemma_dec_digits_props(k1);
    lemma_dec_digits_props(k2);
    if k1 < 10 && k2 < 10 {
        assert(digit_char(k1) == digit_char(k2));
        assert(k1 == k2);
    } else if k1 < 10 {
        assert(dec_digits(k1).len() == 1);
        assert(false);
    } else if k2 < 10 {
        assert(dec_digits(k2).len() == 1);
        assert(false);
    } else {
        assert(dec_digits(k1) == dec_digits(k1 / 10) + seq![digit_char(k1 % 10)]);
        assert(dec_digits(k2) == dec_digits(k2 / 10) + seq![digit_char(k2 % 10)]);
        assert(dec_digits(k1).last() == digit_char(k1 % 10));
        assert(dec_digits(k2).last() == digit_char(k2 % 10));
        assert(k1 % 10 == k2 % 10);
        assert(dec_digits(k1).drop_last() =~= dec_digits(k1 / 10));
        assert(dec_digits(k2).drop_last() =~= dec_digits(k2 / 10));
        lemma_dec_digits_inj(k1 / 10, k2 / 10);
    }
}

/// Two canonical numbers read from the same characters, each ending at a
/// non-digit or at the end, are the same number.
pub proof fn lemma_number_det(k1: nat, k2: nat, t: Seq<char>)
    requires
        dec_digits(k1).is_prefix_of(t),
        dec_digits(k2).is_prefix_of(t),
        dec_digits(k1).len() == t.len() || !is_digit(t[dec_digits(k1).len() as int]),
        dec_digits(k2).len() == t.len() || !is_digit(t[dec_digits(k2).len() as int]),
    ensures
        k1 == k2,
{
    lemma_dec_digits_props(k1);
    lemma_dec_digits_props(k2);
    let d1 = dec_digits(k1);
    let d2 = dec_digits(k2);
    if d1.len() < d2.len() {
        assert(t[d1.len() as int] == d2[d1.len() as int]);
        assert(is_digit(d2[d1.len() as int]));
        assert(false);
    } else if d2.len() < d1.len() {
        assert(t[d2.len() as int] == d1[d2.len() as int]);
        assert(is_digit(d1[d2.len() as int]));
        assert(false);
    } else {
        assert(d1 =~= d2);
        lemma_dec_digits_inj(k1, k2);
    }
}

/// Joins two adjacent prefixes into one.
pub proof fn lemma_prefix_join(a: Seq<char>, b: Seq<char>, t: Seq<char>)
    requires
        a.is_prefix_of(t),
        b.is_prefix_of(t.skip(a.len() as int)),
    ensures
        (a + b).is_prefix_of(t),
{
    assert forall|k: int| 0 <= k < a.len() + b.len() implies (a + b)[k] == t[k] by {
        if k < a.len() {
            assert(a[k] == t.subrange(0, a.len() as int)[k]);
        } else {
            assert(b[k - a.len()] == t.skip(a.len() as int).subrange(0, b.len() as int)[k
                - a.len()]);
        }
    }
    assert((a + b) =~= t.subrange(0, a.len() as int + b.len() as int));
}

/// A single character at the front of a sequence is a prefix of it.
pub proof fn lemma_char_prefix(c: char, t: Seq<char>)
    requires
        t.len() >= 1,
        t[0] == c,
    ensures
        seq![c].is_prefix_of(t),
{
    assert(seq![c] =~= t.subrange(0, 1));
}

/// The lengths and leading characters of the fixed parts of the grammar.
pub proof fn lemma_tok_facts()
    ensures
        "\"type\":\""@.len() == 8,
        "field\""@.len() == 6 && "field\""@[0] == 'f',
        "bool\""@.len() == 5 && "bool\""@[0] == 'b',
        "array\""@.len() == 6 && "array\""@[0] == 'a',
        "struct\""@.len() == 7 && "struct\""@[0] == 's',
        ","@.len() == 1 && ","@[0] == ',',
        "}"@.len() == 1 && "}"@[0] == '}',
        "{"@.len() == 1 && "{"@[0] == '{',
        ",\"components\":{\"size\":"@.len() == 22,
        ",\"components\":{\"name\":"@.len() == 22,
        ",\"members\":["@.len() == 12,
        "]}"@.len() == 2 && "]}"@[0] == ']' && "]}"@[1] == '}',
        "{\"name\":"@.len() == 8 && "{\"name\":"@[0] == '{',
        ",\"public\":"@.len() == 10,
        "true"@.len() == 4 && "true"@[0] == 't',
        "false"@.len() == 5 && "false"@[0] == 'f',
        "{\"inputs\":["@.len() == 11,
        "],\"outputs\":["@.len() == 13 && "],\"outputs\":["@[0] == ']',
        ",\"outputs\":["@.len() == 12,
        "],\"outputs\":["@ == seq![']'] + ",\"outputs\":["@,
{
    reveal_strlit("\"type\":\"");
    reveal_strlit("field\"");
    reveal_strlit("bool\"");
    reveal_strlit("array\"");
    reveal_strlit("struct\"");
    reveal_strlit(",");
    reveal_strlit("}");
    reveal_strlit("{");
    reveal_strlit(",\"components\":{\"size\":");
    reveal_strlit(",\"components\":{\"name\":");
    reveal_strlit(",\"members\":[");
    reveal_strlit("]}");
    reveal_strlit("{\"name\":");
    reveal_strlit(",\"public\":");
    reveal_strlit("true");
    reveal_strlit("false");
    reveal_strlit("{\"inputs\":[");
    reveal_strlit("],\"outputs\":[");
    reveal_strlit(",\"outputs\":[");
    assert("],\"outputs\":["@ =~= seq![']'] + ",\"outputs\":["@);
}

/// The discriminant word of a type document starts where the `type` key
/// ends, and the rest of the document follows it.
pub proof fn lemma_ty_body_shape(m: TypeModel, t: Seq<char>)
    requires
        enc_ty_body(m).is_prefix_of(t),
    ensures
        "\"type\":\""@.is_prefix_of(t),
        crate::encode::kind_word(m).is_prefix_of(t.skip(8)),
{
    lemma_tok_facts();
    match m {
        TypeModel::Field => {
            lemma_prefix_parts("\"type\":\""@, "field\""@, t);
        },
        TypeModel::Bool => {
            lemma_prefix_parts("\"type\":\""@, "bool\""@, t);
        },
        TypeModel::Array(e, n) => {
            let p1 = "\"type\":\""@ + "array\""@ + ",\"components\":{\"size\":"@ + dec_digits(n)
                + ","@ + enc_ty_body(*e);
            lemma_prefix_parts(p1, "}"@, t);
            let p2 = "\"type\":\""@ + "array\""@ + ",\"components\":{\"size\":"@ + dec_digits(n)
                + ","@;
            lemma_prefix_parts(p2, enc_ty_body(*e), t);
            let p3 = "\"type\":\""@ + "array\""@ + ",\"components\":{\"size\":"@ + dec_digits(n);
            lemma_prefix_parts(p3, ","@, t);
            let p4 = "\"type\":\""@ + "array\""@ + ",\"components\":{\"size\":"@;
            lemma_prefix_parts(p4, dec_digits(n), t);
            let p5 = "\"type\":\""@ + "array\""@;
            lemma_prefix_parts(p5, ",\"components\":{\"size\":"@, t);
            lemma_prefix_parts("\"type\":\""@, "array\""@, t);
        },
        TypeModel::Struct(nm, ms) => {
            let p1 = "\"type\":\""@ + "struct\""@ + ",\"components\":{\"name\":"@ + quoted(nm)
                + ",\"members\":["@ + enc_members(ms);
            lemma_prefix_parts(p1, "]}"@, t);
            let p2 = "\"type\":\""@ + "struct\""@ + ",\"components\":{\"name\":"@ + quoted(nm)
                + ",\"members\":["@;
            lemma_prefix_parts(p2, enc_members(ms), t);
            let p3 = "\"type\":\""@ + "struct\""@ + ",\"components\":{\"name\":"@ + quoted(nm);
            lemma_prefix_parts(p3, ",\"members\":["@, t);
            let p4 = "\"type\":\""@ + "struct\""@ + ",\"components\":{\"name\":"@;
            lemma_prefix_parts(p4, quoted(nm), t);
            let p5 = "\"type\":\""@ + "struct\""@;
            lemma_prefix_parts(p5, ",\"components\":{\"name\":"@, t);
            lemma_prefix_parts("\"type\":\""@, "struct\""@, t);
        },
    }
}

/// A member document is nonempty and starts with an opening brace.
pub proof fn lemma_enc_member_first(mm: MemberModel)
    ensures
        enc_member(mm).len() >= 1,
        enc_member(mm)[0] == '{',
{
    lemma_tok_facts();
    let a = "{\"name\":"@ + quoted(mm.name);
    let b = a + ","@;
    let c = b + enc_ty_body(mm.ty);
    assert(a[0] == "{\"name\":"@[0]);
    assert(b[0] == a[0]);
    assert(c[0] == b[0]);
    assert(enc_member(mm)[0] == c[0]);
}

/// A nonempty member list document starts with an opening brace.
pub proof fn lemma_enc_members_first(ms: Seq<MemberModel>)
    requires
        ms.len() >= 1,
    ensures
        enc_members(ms).len() >= 1,
        enc_members(ms)[0] == '{',
{
    lemma_enc_member_first(ms[0]);
    if ms.len() == 1 {
    } else {
        let a = enc_member(ms[0]) + ","@;
        assert(a[0] == enc_member(ms[0])[0]);
        assert(enc_members(ms)[0] == a[0]);
    }
}

/// Two member documents read from the same characters are the same member.
pub proof fn lemma_member_det(a: MemberModel, b: MemberModel, u: Seq<char>)
    requires
        enc_member(a).is_prefix_of(u),
        enc_member(b).is_prefix_of(u),
    ensures
        a == b,
        enc_member(a) == enc_member(b),
    decreases a, 0int,
{
    lemma_tok_facts();
    let ha = "{\"name\":"@ + quoted(a.name);
    let hb = "{\"name\":"@ + quoted(b.name);
    lemma_prefix_parts(ha + ","@ + enc_ty_body(a.ty), "}"@, u);
    lemma_prefix_parts(ha + ","@, enc_ty_body(a.ty), u);
    lemma_prefix_parts(ha, ","@, u);
    lemma_prefix_parts("{\"name\":"@, quoted(a.name), u);
    lemma_prefix_parts(hb + ","@ + enc_ty_body(b.ty), "}"@, u);
    lemma_prefix_parts(hb + ","@, enc_ty_body(b.ty), u);
    lemma_prefix_parts(hb, ","@, u);
    lemma_prefix_parts("{\"name\":"@, quoted(b.name), u);
    lemma_quoted_det(a.name, b.name, u.skip(8));
    assert(quoted(a.name).len() == quoted(b.name).len());
    lemma_ty_body_det(a.ty, b.ty, u.skip(8 + quoted(a.name).len() as int + 1));
    assert(a =~= b);
}

/// Two member list documents closed by a bracket and read from the same
/// characters are the same list.
pub proof fn lemma_members_det(ms1: Seq<MemberModel>, ms2: Seq<MemberModel>, u: Seq<char>)
    requires
        (enc_members(ms1) + seq![']']).is_prefix_of(u),
        (enc_members(ms2) + seq![']']).is_prefix_of(u),
    ensures
        ms1 == ms2,
        enc_members(ms1) == enc_members(ms2),
    decreases ms1, 1int,
{
    lemma_tok_facts();
    if ms1.len() == 0 {
        assert(enc_members(ms1) + seq![']'] =~= seq![']']);
        lemma_prefix_first(enc_members(ms1) + seq![']'], u);
        assert(u[0] == ']');
        if ms2.len() >= 1 {
            lemma_enc_members_first(ms2);
            lemma_prefix_first(enc_members(ms2) + seq![']'], u);
            assert((enc_members(ms2) + seq![']'])[0] == enc_members(ms2)[0]);
            assert(false);
        }
        assert(ms1 =~= ms2);
    } else if ms2.len() == 0 {
        assert(enc_members(ms2) + seq![']'] =~= seq![']']);
        lemma_prefix_first(enc_members(ms2) + seq![']'], u);
        assert(u[0] == ']');
        lemma_enc_members_first(ms1);
        lemma_prefix_first(enc_members(ms1) + seq![']'], u);
        assert((enc_members(ms1) + seq![']'])[0] == enc_members(ms1)[0]);
        assert(false);
    } else {
        if ms1.len() == 1 {
            lemma_prefix_parts(enc_member(ms1[0]), seq![']'], u);
        } else {
            assert(enc_members(ms1) + seq![']'] =~= enc_member(ms1[0]) + (","@ + enc_members(
                ms1.drop_first(),
            ) + seq![']']));
            lemma_prefix_parts(
                enc_member(ms1[0]),
                ","@ + enc_members(ms1.drop_first()) + seq![']'],
                u,
            );
        }
        if ms2.len() == 1 {
            lemma_prefix_parts(enc_member(ms2[0]), seq![']'], u);
        } else {
            assert(enc_members(ms2) + seq![']'] =~= enc_member(ms2[0]) + (","@ + enc_members(
                ms2.drop_first(),
            ) + seq![']']));
            lemma_prefix_parts(
                enc_member(ms2[0]),
                ","@ + enc_members(ms2.drop_first()) + seq![']'],
                u,
            );
        }
        lemma_member_det(ms1[0], ms2[0], u);
        let el = enc_member(ms1[0]).len() as int;
        assert(ms1.len() > 1 ==> (","@ + enc_members(ms1.drop_first()) + seq![']']) =~= ","@ + (
        enc_members(ms1.drop_first()) + seq![']']));
        assert(ms2.len() > 1 ==> (","@ + enc_members(ms2.drop_first()) + seq![']']) =~= ","@ + (
        enc_members(ms2.drop_first()) + seq![']']));
        if ms1.len() == 1 && ms2.len() == 1 {
            assert(ms1 =~= ms2);
        } else if ms1.len() == 1 {
            lemma_prefix_first(seq![']'], u.skip(el));
            assert(u.skip(el)[0] == ']');
            lemma_prefix_parts(","@, enc_members(ms2.drop_first()) + seq![']'], u.skip(el));
            lemma_prefix_first(","@, u.skip(el));
            assert(u.skip(el)[0] == ',');
            assert(false);
        } else if ms2.len() == 1 {
            lemma_prefix_first(seq![']'], u.skip(el));
            assert(u.skip(el)[0] == ']');
            lemma_prefix_parts(","@, enc_members(ms1.drop_first()) + seq![']'], u.skip(el));
            lemma_prefix_first(","@, u.skip(el));
            assert(u.skip(el)[0] == ',');
            assert(false);
        } else {
            lemma_prefix_parts(","@, enc_members(ms1.drop_first()) + seq![']'], u.skip(el));
            lemma_prefix_parts(","@, enc_members(ms2.drop_first()) + seq![']'], u.skip(el));
            assert(u.skip(el).skip(1) =~= u.skip(el + 1));
            lemma_members_det(ms1.drop_first(), ms2.drop_first(), u.skip(el + 1));
            assert(ms1.len() == ms2.len());
            assert forall|k: int| 0 <= k < ms1.len() implies ms1[k] == ms2[k] by {
                if k > 0 {
                    assert(ms1[k] == ms1.drop_first()[k - 1]);
                    assert(ms2[k] == ms2.drop_first()[k - 1]);
                }
            }
            assert(ms1 =~= ms2);
        }
    }
}

/// Two type document bodies read from the same characters denote the same
/// type.
pub proof fn lemma_ty_body_det(m1: TypeModel, m2: TypeModel, t: Seq<char>)
    requires
        enc_ty_body(m1).is_prefix_of(t),
        enc_ty_body(m2).is_prefix_of(t),
    ensures
        m1 == m2,
        enc_ty_body(m1) == enc_ty_body(m2),
    decreases m1, 2int,
{
    lemma_tok_facts();
    lemma_ty_body_shape(m1, t);
    lemma_ty_body_shape(m2, t);
    let u = t.skip(8);
    lemma_prefix_first(crate::encode::kind_word(m1), u);
    lemma_prefix_first(crate::encode::kind_word(m2), u);
    match (m1, m2) {
        (TypeModel::Field, TypeModel::Field) => {},
        (TypeModel::Bool, TypeModel::Bool) => {},
        (TypeModel::Array(e1, n1), TypeModel::Array(e2, n2)) => {
            let p4a = "\"type\":\""@ + "array\""@ + ",\"components\":{\"size\":"@;
            let p4b = p4a;
            lemma_prefix_parts(p4a + dec_digits(n1) + ","@ + enc_ty_body(*e1), "}"@, t);
            lemma_prefix_parts(p4a + dec_digits(n1) + ","@, enc_ty_body(*e1), t);
            lemma_prefix_parts(p4a + dec_digits(n1), ","@, t);
            lemma_prefix_parts(p4a, dec_digits(n1), t);
            lemma_prefix_parts(p4b + dec_digits(n2) + ","@ + enc_ty_body(*e2), "}"@, t);
            lemma_prefix_parts(p4b + dec_digits(n2) + ","@, enc_ty_body(*e2), t);
            lemma_prefix_parts(p4b + dec_digits(n2), ","@, t);
            lemma_prefix_parts(p4b, dec_digits(n2), t);
            let v = t.skip(36);
            lemma_dec_digits_props(n1);
            lemma_dec_digits_props(n2);
            lemma_prefix_first(","@, t.skip(36 + dec_digits(n1).len() as int));
            lemma_prefix_first(","@, t.skip(36 + dec_digits(n2).len() as int));
            assert(v[dec_digits(n1).len() as int] == t[36 + dec_digits(n1).len() as int]);
            assert(v[dec_digits(n2).len() as int] == t[36 + dec_digits(n2).len() as int]);
            lemma_number_det(n1, n2, v);
            let after: int = 36 + dec_digits(n1).len() as int + 1;
            assert(t.skip(36 + dec_digits(n1).len() as int).skip(1) =~= t.skip(after));
            lemma_ty_body_det(*e1, *e2, t.skip(after));
            assert(m1 =~= m2);
        },
        (TypeModel::Struct(nm1, ms1), TypeModel::Struct(nm2, ms2)) => {
            let p4a = "\"type\":\""@ + "struct\""@ + ",\"components\":{\"name\":"@;
            lemma_prefix_parts(
                p4a + quoted(nm1) + ",\"members\":["@ + enc_members(ms1),
                "]}"@,
                t,
            );
            lemma_prefix_parts(p4a + quoted(nm1) + ",\"members\":["@, enc_members(ms1), t);
            lemma_prefix_parts(p4a + quoted(nm1), ",\"members\":["@, t);
            lemma_prefix_parts(p4a, quoted(nm1), t);
            lemma_prefix_parts(
                p4a + quoted(nm2) + ",\"members\":["@ + enc_members(ms2),
                "]}"@,
                t,
            );
            lemma_prefix_parts(p4a + quoted(nm2) + ",\"members\":["@, enc_members(ms2), t);
            lemma_prefix_parts(p4a + quoted(nm2), ",\"members\":["@, t);
            lemma_prefix_parts(p4a, quoted(nm2), t);
            lemma_quoted_det(nm1, nm2, t.skip(37));
            assert(quoted(nm1).len() == quoted(nm2).len());
            let p: int = 37 + quoted(nm1).len() as int + 12;
            let w = t.skip(p);
            lemma_prefix_first("]}"@, t.skip(p + enc_members(ms1).len() as int));
            lemma_prefix_first("]}"@, t.skip(p + enc_members(ms2).len() as int));
            assert(t[p + enc_members(ms1).len() as int] == ']');
            assert(t[p + enc_members(ms2).len() as int] == ']');
            assert(w.len() >= enc_members(ms1).len() + 1);
            assert(w.len() >= enc_members(ms2).len() + 1);
            lemma_char_prefix(']', t.skip(p + enc_members(ms1).len() as int));
            lemma_char_prefix(']', t.skip(p + enc_members(ms2).len() as int));
            assert(enc_members(ms1).is_prefix_of(w));
            assert(enc_members(ms2).is_prefix_of(w));
            assert(w.skip(enc_members(ms1).len() as int) =~= t.skip(
                p + enc_members(ms1).len() as int,
            ));
            assert(w.skip(enc_members(ms2).len() as int) =~= t.skip(
                p + enc_members(ms2).len() as int,
            ));
            lemma_prefix_join(enc_members(ms1), seq![']'], w);
            lemma_prefix_join(enc_members(ms2), seq![']'], w);
            lemma_members_det(ms1, ms2, w);
            assert(m1 =~= m2);
        },
        _ => {
            assert(u[0] == crate::encode::kind_word(m1)[0]);
            assert(u[0] == crate::encode::kind_word(m2)[0]);
            assert(false);
        },
    }
}

/// Where each part of an array type document stands, for a document read
/// from `t`.
pub proof fn lemma_ty_body_array_at(e: Box<TypeModel>, k: nat, t: Seq<char>)
    requires
        enc_ty_body(TypeModel::Array(e, k)).is_prefix_of(t),
    ensures
        ",\"components\":{\"size\":"@.is_prefix_of(t.skip(14)),
        dec_digits(k).is_prefix_of(t.skip(36)),
        t.len() > 36 + dec_digits(k).len(),
        t[36 + dec_digits(k).len() as int] == ',',
        enc_ty_body(*e).is_prefix_of(t.skip(37 + dec_digits(k).len() as int)),
        t.len() > 37 + dec_digits(k).len() + enc_ty_body(*e).len(),
        t[37 + dec_digits(k).len() as int + enc_ty_body(*e).len() as int] == '}',
        enc_ty_body(TypeModel::Array(e, k)).len() == 38 + dec_digits(k).len() + enc_ty_body(
            *e,
        ).len(),
{
    lemma_tok_facts();
    let p4 = "\"type\":\""@ + "array\""@ + ",\"components\":{\"size\":"@;
    lemma_prefix_parts(p4 + dec_digits(k) + ","@ + enc_ty_body(*e), "}"@, t);
    lemma_prefix_parts(p4 + dec_digits(k) + ","@, enc_ty_body(*e), t);
    lemma_prefix_parts(p4 + dec_digits(k), ","@, t);
    lemma_prefix_parts(p4, dec_digits(k), t);
    lemma_prefix_parts("\"type\":\""@ + "array\""@, ",\"components\":{\"size\":"@, t);
    lemma_prefix_first(","@, t.skip(36 + dec_digits(k).len() as int));
    lemma_prefix_first(
        "}"@,
        t.skip(37 + dec_digits(k).len() as int + enc_ty_body(*e).len() as int),
    );
}

/// Where each part of a struct type document stands, for a document read
/// from `t`.
pub proof fn lemma_ty_body_struct_at(nm: Seq<char>, ms: Seq<MemberModel>, t: Seq<char>)
    requires
        enc_ty_body(TypeModel::Struct(nm, ms)).is_prefix_of(t),
    ensures
        ",\"components\":{\"name\":"@.is_prefix_of(t.skip(15)),
        quoted(nm).is_prefix_of(t.skip(37)),
        ",\"members\":["@.is_prefix_of(t.skip(37 + quoted(nm).len() as int)),
        (enc_members(ms) + seq![']']).is_prefix_of(t.skip(49 + quoted(nm).len() as int)),
        t.len() > 50 + quoted(nm).len() + enc_members(ms).len(),
        t[50 + quoted(nm).len() as int + enc_members(ms).len() as int] == '}',
        enc_ty_body(TypeModel::Struct(nm, ms)).len() == 51 + quoted(nm).len() + enc_members(
            ms,
        ).len(),
{
    lemma_tok_facts();
    let p4 = "\"type\":\""@ + "struct\""@ + ",\"components\":{\"name\":"@;
    lemma_prefix_parts(p4 + quoted(nm) + ",\"members\":["@ + enc_members(ms), "]}"@, t);
    lemma_prefix_parts(p4 + quoted(nm) + ",\"members\":["@, enc_members(ms), t);
    lemma_prefix_parts(p4 + quoted(nm), ",\"members\":["@, t);
    lemma_prefix_parts(p4, quoted(nm), t);
    lemma_prefix_parts("\"type\":\""@ + "struct\""@, ",\"components\":{\"name\":"@, t);
    let pm = 49 + quoted(nm).len() as int;
    lemma_prefix_first("]}"@, t.skip(pm + enc_members(ms).len() as int));
    assert(t[pm + enc_members(ms).len() as int] == ']');
    assert(t[pm + enc_members(ms).len() as int + 1] == '}');
    lemma_char_prefix(']', t.skip(pm + enc_members(ms).len() as int));
    assert(t.skip(pm).skip(enc_members(ms).len() as int) =~= t.skip(
        pm + enc_members(ms).len() as int,
    ));
    lemma_prefix_join(enc_members(ms), seq![']'], t.skip(pm));
}

/// Where each part of a member document stands, for a document read from
/// `t`.
pub proof fn lemma_member_at(mm: MemberModel, t: Seq<char>)
    requires
        enc_member(mm).is_prefix_of(t),
    ensures
        "{\"name\":"@.is_prefix_of(t),
        quoted(mm.name).is_prefix_of(t.skip(8)),
        t.len() > 8 + quoted(mm.name).len(),
        t[8 + quoted(mm.name).len() as int] == ',',
        enc_ty_body(mm.ty).is_prefix_of(t.skip(9 + quoted(mm.name).len() as int)),
        t.len() > 9 + quoted(mm.name).len() + enc_ty_body(mm.ty).len(),
        t[9 + quoted(mm.name).len() as int + enc_ty_body(mm.ty).len() as int] == '}',
        enc_member(mm).len() == 10 + quoted(mm.name).len() + enc_ty_body(mm.ty).len(),
{
    lemma_tok_facts();
    let h = "{\"name\":"@ + quoted(mm.name);
    lemma_prefix_parts(h + ","@ + enc_ty_body(mm.ty), "}"@, t);
    lemma_prefix_parts(h + ","@, enc_ty_body(mm.ty), t);
    lemma_prefix_parts(h, ","@, t);
    lemma_prefix_parts("{\"name\":"@, quoted(mm.name), t);
    lemma_prefix_first(","@, t.skip(8 + quoted(mm.name).len() as int));
    lemma_prefix_first(
        "}"@,
        t.skip(9 + quoted(mm.name).len() as int + enc_ty_body(mm.ty).len() as int),
    );
}

/// Where each part of an input document stands, for a document read from
/// `t`.
pub proof fn lemma_input_at(im: InputModel, t: Seq<char>)
    requires
        enc_input(im).is_prefix_of(t),
    ensures
        "{\"name\":"@.is_prefix_of(t),
        quoted(im.name).is_prefix_of(t.skip(8)),
        ",\"public\":"@.is_prefix_of(t.skip(8 + quoted(im.name).len() as int)),
        im.public ==> "true"@.is_prefix_of(t.skip(18 + quoted(im.name).len() as int)),
        !im.public ==> "false"@.is_prefix_of(t.skip(18 + quoted(im.name).len() as int)),
        t.len() > 18 + quoted(im.name).len() + (if im.public { 4int } else { 5int }),
        t[18 + quoted(im.name).len() as int + (if im.public { 4int } else { 5int })] == ',',
        enc_ty_body(im.ty).is_prefix_of(
            t.skip(19 + quoted(im.name).len() as int + (if im.public { 4int } else { 5int })),
        ),
        t.len() > 19 + quoted(im.name).len() + (if im.public { 4int } else { 5int })
            + enc_ty_body(im.ty).len(),
        t[19 + quoted(im.name).len() as int + (if im.public { 4int } else { 5int })
            + enc_ty_body(im.ty).len() as int] == '}',
        enc_input(im).len() == 20 + quoted(im.name).len() + (if im.public { 4int } else { 5int })
            + enc_ty_body(im.ty).len(),
{
    lemma_tok_facts();
    let bt = if im.public {
        "true"@
    } else {
        "false"@
    };
    let h = "{\"name\":"@ + quoted(im.name);
    lemma_prefix_parts(h + ",\"public\":"@ + bt + ","@ + enc_ty_body(im.ty), "}"@, t);
    lemma_prefix_parts(h + ",\"public\":"@ + bt + ","@, enc_ty_body(im.ty), t);
    lemma_prefix_parts(h + ",\"public\":"@ + bt, ","@, t);
    lemma_prefix_parts(h + ",\"public\":"@, bt, t);
    lemma_prefix_parts(h, ",\"public\":"@, t);
    lemma_prefix_parts("{\"name\":"@, quoted(im.name), t);
    lemma_prefix_first(","@, t.skip(18 + quoted(im.name).len() as int + bt.len() as int));
    lemma_prefix_first(
        "}"@,
        t.skip(19 + quoted(im.name).len() as int + bt.len() as int + enc_ty_body(
            im.ty,
        ).len() as int),
    );
}

/// Where each part of a bare type document stands, for a document read from
/// `t`.
pub proof fn lemma_enc_ty_at(x: TypeModel, t: Seq<char>)
    requires
        enc_ty(x).is_prefix_of(t),
    ensures
        t.len() >= 1,
        t[0] == '{',
        enc_ty_body(x).is_prefix_of(t.skip(1)),
        t.len() > 1 + enc_ty_body(x).len(),
        t[1 + enc_ty_body(x).len() as int] == '}',
        enc_ty(x).len() == 2 + enc_ty_body(x).len(),
{
    lemma_tok_facts();
    lemma_prefix_parts("{"@ + enc_ty_body(x), "}"@, t);
    lemma_prefix_parts("{"@, enc_ty_body(x), t);
    lemma_prefix_first("{"@, t);
    assert(("{"@ + enc_ty_body(x))[0] == '{');
    lemma_prefix_first("{"@ + enc_ty_body(x), t);
    lemma_prefix_first("}"@, t.skip(1 + enc_ty_body(x).len() as int));
}

/// An input document is nonempty and starts with an opening brace.
pub proof fn lemma_enc_input_first(i: InputModel)
    ensures
        enc_input(i).len() >= 1,
        enc_input(i)[0] == '{',
{
    lemma_tok_facts();
    let bool_tok = if i.public {
        "true"@
    } else {
        "false"@
    };
    let a = "{\"name\":"@ + quoted(i.name);
    let b = a + ",\"public\":"@;
    let c = b + bool_tok;
    let d = c + ","@;
    let e = d + enc_ty_body(i.ty);
    assert(a[0] == "{\"name\":"@[0]);
    assert(b[0] == a[0]);
    assert(c[0] == b[0]);
    assert(d[0] == c[0]);
    assert(e[0] == d[0]);
    assert(enc_input(i)[0] == e[0]);
}

/// Two input documents read from the same characters are the same input.
pub proof fn lemma_input_det(i1: InputModel, i2: InputModel, u: Seq<char>)
    requires
        enc_input(i1).is_prefix_of(u),
        enc_input(i2).is_prefix_of(u),
    ensures
        i1 == i2,
        enc_input(i1) == enc_input(i2),
{
    lemma_tok_facts();
    let b1 = if i1.public {
        "true"@
    } else {
        "false"@
    };
    let b2 = if i2.public {
        "true"@
    } else {
        "false"@
    };
    let h1 = "{\"name\":"@ + quoted(i1.name);
    let h2 = "{\"name\":"@ + quoted(i2.name);
    lemma_prefix_parts(h1 + ",\"public\":"@ + b1 + ","@ + enc_ty_body(i1.ty), "}"@, u);
    lemma_prefix_parts(h1 + ",\"public\":"@ + b1 + ","@, enc_ty_body(i1.ty), u);
    lemma_prefix_parts(h1 + ",\"public\":"@ + b1, ","@, u);
    lemma_prefix_parts(h1 + ",\"public\":"@, b1, u);
    lemma_prefix_parts(h1, ",\"public\":"@, u);
    lemma_prefix_parts("{\"name\":"@, quoted(i1.name), u);
    lemma_prefix_parts(h2 + ",\"public\":"@ + b2 + ","@ + enc_ty_body(i2.ty), "}"@, u);
    lemma_prefix_parts(h2 + ",\"public\":"@ + b2 + ","@, enc_ty_body(i2.ty), u);
    lemma_prefix_parts(h2 + ",\"public\":"@ + b2, ","@, u);
    lemma_prefix_parts(h2 + ",\"public\":"@, b2, u);
    lemma_prefix_parts(h2, ",\"public\":"@, u);
    lemma_prefix_parts("{\"name\":"@, quoted(i2.name), u);
    lemma_quoted_det(i1.name, i2.name, u.skip(8));
    assert(quoted(i1.name).len() == quoted(i2.name).len());
    let pb = 8 + quoted(i1.name).len() as int + 10;
    lemma_prefix_first(b1, u.skip(pb));
    lemma_prefix_first(b2, u.skip(pb));
    assert(u.skip(pb)[0] == b1[0]);
    assert(u.skip(pb)[0] == b2[0]);
    if i1.public != i2.public {
        assert(false);
    }
    lemma_ty_body_det(i1.ty, i2.ty, u.skip(pb + b1.len() as int + 1));
    assert(i1 =~= i2);
}

/// Two input list documents closed by a bracket and read from the same
/// characters are the same list.
pub proof fn lemma_inputs_det(s1: Seq<InputModel>, s2: Seq<InputModel>, u: Seq<char>)
    requires
        (enc_inputs(s1) + seq![']']).is_prefix_of(u),
        (enc_inputs(s2) + seq![']']).is_prefix_of(u),
    ensures
        s1 == s2,
        enc_inputs(s1) == enc_inputs(s2),
    decreases s1,
{
    lemma_tok_facts();
    if s1.len() == 0 {
        assert(enc_inputs(s1) + seq![']'] =~= seq![']']);
        lemma_prefix_first(enc_inputs(s1) + seq![']'], u);
        assert(u[0] == ']');
        if s2.len() >= 1 {
            lemma_enc_input_first(s2[0]);
            if s2.len() == 1 {
            } else {
                let a = enc_input(s2[0]) + ","@;
                assert(a[0] == enc_input(s2[0])[0]);
                assert(enc_inputs(s2)[0] == a[0]);
            }
            lemma_prefix_first(enc_inputs(s2) + seq![']'], u);
            assert((enc_inputs(s2) + seq![']'])[0] == enc_inputs(s2)[0]);
            assert(false);
        }
        assert(s1 =~= s2);
    } else if s2.len() == 0 {
        assert(enc_inputs(s2) + seq![']'] =~= seq![']']);
        lemma_prefix_first(enc_inputs(s2) + seq![']'], u);
        assert(u[0] == ']');
        lemma_enc_input_first(s1[0]);
        if s1.len() == 1 {
        } else {
            let a = enc_input(s1[0]) + ","@;
            assert(a[0] == enc_input(s1[0])[0]);
            assert(enc_inputs(s1)[0] == a[0]);
        }
        lemma_prefix_first(enc_inputs(s1) + seq![']'], u);
        assert((enc_inputs(s1) + seq![']'])[0] == enc_inputs(s1)[0]);
        assert(false);
    } else {
        if s1.len() == 1 {
            lemma_prefix_parts(enc_input(s1[0]), seq![']'], u);
        } else {
            assert(enc_inputs(s1) + seq![']'] =~= enc_input(s1[0]) + (","@ + enc_inputs(
                s1.drop_first(),
            ) + seq![']']));
            lemma_prefix_parts(enc_input(s1[0]), ","@ + enc_inputs(s1.drop_first()) + seq![']'], u);
        }
        if s2.len() == 1 {
            lemma_prefix_parts(enc_input(s2[0]), seq![']'], u);
        } else {
            assert(enc_inputs(s2) + seq![']'] =~= enc_input(s2[0]) + (","@ + enc_inputs(
                s2.drop_first(),
            ) + seq![']']));
            lemma_prefix_parts(enc_input(s2[0]), ","@ + enc_inputs(s2.drop_first()) + seq![']'], u);
        }
        lemma_input_det(s1[0], s2[0], u);
        let el = enc_input(s1[0]).len() as int;
        assert(s1.len() > 1 ==> (","@ + enc_inputs(s1.drop_first()) + seq![']']) =~= ","@ + (
        enc_inputs(s1.drop_first()) + seq![']']));
        assert(s2.len() > 1 ==> (","@ + enc_inputs(s2.drop_first()) + seq![']']) =~= ","@ + (
        enc_inputs(s2.drop_first()) + seq![']']));
        if s1.len() == 1 && s2.len() == 1 {
            assert(s1 =~= s2);
        } else if s1.len() == 1 {
            lemma_prefix_first(seq![']'], u.skip(el));
            assert(u.skip(el)[0] == ']');
            lemma_prefix_parts(","@, enc_inputs(s2.drop_first()) + seq![']'], u.skip(el));
            lemma_prefix_first(","@, u.skip(el));
            assert(u.skip(el)[0] == ',');
            assert(false);
        } else if s2.len() == 1 {
            lemma_prefix_first(seq![']'], u.skip(el));
            assert(u.skip(el)[0] == ']');
            lemma_prefix_parts(","@, enc_inputs(s1.drop_first()) + seq![']'], u.skip(el));
            lemma_prefix_first(","@, u.skip(el));
            assert(u.skip(el)[0] == ',');
            assert(false);
        } else {
            lemma_prefix_parts(","@, enc_inputs(s1.drop_first()) + seq![']'], u.skip(el));
            lemma_prefix_parts(","@, enc_inputs(s2.drop_first()) + seq![']'], u.skip(el));
            assert(u.skip(el).skip(1) =~= u.skip(el + 1));
            lemma_inputs_det(s1.drop_first(), s2.drop_first(), u.skip(el + 1));
            assert(s1.len() == s2.len());
            assert forall|k: int| 0 <= k < s1.len() implies s1[k] == s2[k] by {
                if k > 0 {
                    assert(s1[k] == s1.drop_first()[k - 1]);
                    assert(s2[k] == s2.drop_first()[k - 1]);
                }
            }
            assert(s1 =~= s2);
        }
    }
}

/// Two bare type documents read from the same characters denote the same
/// type.
pub proof fn lemma_output_det(x: TypeModel, y: TypeModel, u: Seq<char>)
    requires
        enc_ty(x).is_prefix_of(u),
        enc_ty(y).is_prefix_of(u),
    ensures
        x == y,
        enc_ty(x) == enc_ty(y),
{
    lemma_tok_facts();
    lemma_prefix_parts("{"@ + enc_ty_body(x), "}"@, u);
    lemma_prefix_parts("{"@, enc_ty_body(x), u);
    lemma_prefix_parts("{"@ + enc_ty_body(y), "}"@, u);
    lemma_prefix_parts("{"@, enc_ty_body(y), u);
    lemma_ty_body_det(x, y, u.skip(1));
}

/// A bare type document is nonempty and starts with an opening brace.
pub proof fn lemma_enc_ty_first(x: TypeModel)
    ensures
        enc_ty(x).len() >= 1,
        enc_ty(x)[0] == '{',
{
    lemma_tok_facts();
    let a = "{"@ + enc_ty_body(x);
    assert(a[0] == "{"@[0]);
    assert(enc_ty(x)[0] == a[0]);
}

/// Two output list documents closed by a bracket and read from the same
/// characters are the same list.
pub proof fn lemma_outputs_det(s1: Seq<TypeModel>, s2: Seq<TypeModel>, u: Seq<char>)
    requires
        (enc_outputs(s1) + seq![']']).is_prefix_of(u),
        (enc_outputs(s2) + seq![']']).is_prefix_of(u),
    ensures
        s1 == s2,
        enc_outputs(s1) == enc_outputs(s2),
    decreases s1,
{
    lemma_tok_facts();
    if s1.len() == 0 {
        assert(enc_outputs(s1) + seq![']'] =~= seq![']']);
        lemma_prefix_first(enc_outputs(s1) + seq![']'], u);
        assert(u[0] == ']');
        if s2.len() >= 1 {
            lemma_enc_ty_first(s2[0]);
            if s2.len() == 1 {
            } else {
                let a = enc_ty(s2[0]) + ","@;
                assert(a[0] == enc_ty(s2[0])[0]);
                assert(enc_outputs(s2)[0] == a[0]);
            }
            lemma_prefix_first(enc_outputs(s2) + seq![']'], u);
            assert((enc_outputs(s2) + seq![']'])[0] == enc_outputs(s2)[0]);
            assert(false);
        }
        assert(s1 =~= s2);
    } else if s2.len() == 0 {
        assert(enc_outputs(s2) + seq![']'] =~= seq![']']);
        lemma_prefix_first(enc_outputs(s2) + seq![']'], u);
        assert(u[0] == ']');
        lemma_enc_ty_first(s1[0]);
        if s1.len() == 1 {
        } else {
            let a = enc_ty(s1[0]) + ","@;
            assert(a[0] == enc_ty(s1[0])[0]);
            assert(enc_outputs(s1)[0] == a[0]);
        }
        lemma_prefix_first(enc_outputs(s1) + seq![']'], u);
        assert((enc_outputs(s1) + seq![']'])[0] == enc_outputs(s1)[0]);
        assert(false);
    } else {
        if s1.len() == 1 {
            lemma_prefix_parts(enc_ty(s1[0]), seq![']'], u);
        } else {
            assert(enc_outputs(s1) + seq![']'] =~= enc_ty(s1[0]) + (","@ + enc_outputs(
                s1.drop_first(),
            ) + seq![']']));
            lemma_prefix_parts(enc_ty(s1[0]), ","@ + enc_outputs(s1.drop_first()) + seq![']'], u);
        }
        if s2.len() == 1 {
            lemma_prefix_parts(enc_ty(s2[0]), seq![']'], u);
        } else {
            assert(enc_outputs(s2) + seq![']'] =~= enc_ty(s2[0]) + (","@ + enc_outputs(
                s2.drop_first(),
            ) + seq![']']));
            lemma_prefix_parts(enc_ty(s2[0]), ","@ + enc_outputs(s2.drop_first()) + seq![']'], u);
        }
        lemma_output_det(s1[0], s2[0], u);
        let el = enc_ty(s1[0]).len() as int;
        assert(s1.len() > 1 ==> (","@ + enc_outputs(s1.drop_first()) + seq![']']) =~= ","@ + (
        enc_outputs(s1.drop_first()) + seq![']']));
        assert(s2.len() > 1 ==> (","@ + enc_outputs(s2.drop_first()) + seq![']']) =~= ","@ + (
        enc_outputs(s2.drop_first()) + seq![']']));
        if s1.len() == 1 && s2.len() == 1 {
            assert(s1 =~= s2);
        } else if s1.len() == 1 {
            lemma_prefix_first(seq![']'], u.skip(el));
            assert(u.skip(el)[0] == ']');
            lemma_prefix_parts(","@, enc_outputs(s2.drop_first()) + seq![']'], u.skip(el));
            lemma_prefix_first(","@, u.skip(el));
            assert(u.skip(el)[0] == ',');
            assert(false);
        } else if s2.len() == 1 {
            lemma_prefix_first(seq![']'], u.skip(el));
            assert(u.skip(el)[0] == ']');
            lemma_prefix_parts(","@, enc_outputs(s1.drop_first()) + seq![']'], u.skip(el));
            lemma_prefix_first(","@, u.skip(el));
            assert(u.skip(el)[0] == ',');
            assert(false);
        } else {
            lemma_prefix_parts(","@, enc_outputs(s1.drop_first()) + seq![']'], u.skip(el));
            lemma_prefix_parts(","@, enc_outputs(s2.drop_first()) + seq![']'], u.skip(el));
            assert(u.skip(el).skip(1) =~= u.skip(el + 1));
            lemma_outputs_det(s1.drop_first(), s2.drop_first(), u.skip(el + 1));
            assert(s1.len() == s2.len());
            assert forall|k: int| 0 <= k < s1.len() implies s1[k] == s2[k] by {
                if k > 0 {
                    assert(s1[k] == s1.drop_first()[k - 1]);
                    assert(s2[k] == s2.drop_first()[k - 1]);
                }
            }
            assert(s1 =~= s2);
        }
    }
}

/// Where each part of an ABI document stands, for a document read from `t`.
pub proof fn lemma_abi_at(am: AbiModel, t: Seq<char>)
    requires
        enc_abi(am).is_prefix_of(t),
    ensures
        "{\"inputs\":["@.is_prefix_of(t),
        (enc_inputs(am.inputs) + seq![']']).is_prefix_of(t.skip(11)),
        ",\"outputs\":["@.is_prefix_of(t.skip(12 + enc_inputs(am.inputs).len() as int)),
        (enc_outputs(am.outputs) + seq![']']).is_prefix_of(
            t.skip(24 + enc_inputs(am.inputs).len() as int),
        ),
        t.len() > 25 + enc_inputs(am.inputs).len() + enc_outputs(am.outputs).len(),
        t[25 + enc_inputs(am.inputs).len() as int + enc_outputs(am.outputs).len() as int] == '}',
        enc_abi(am).len() == 26 + enc_inputs(am.inputs).len() + enc_outputs(am.outputs).len(),
{
    lemma_tok_facts();
    let h = "{\"inputs\":["@;
    let m = "],\"outputs\":["@;
    let f = "]}"@;
    let li = enc_inputs(am.inputs).len() as int;
    let lo = enc_outputs(am.outputs).len() as int;
    lemma_prefix_parts(h + enc_inputs(am.inputs) + m + enc_outputs(am.outputs), f, t);
    lemma_prefix_parts(h + enc_inputs(am.inputs) + m, enc_outputs(am.outputs), t);
    lemma_prefix_parts(h + enc_inputs(am.inputs), m, t);
    lemma_prefix_parts(h, enc_inputs(am.inputs), t);
    lemma_prefix_first(m, t.skip(11 + li));
    assert(t[11 + li] == ']');
    lemma_char_prefix(']', t.skip(11 + li));
    assert(t.skip(11).skip(li) =~= t.skip(11 + li));
    lemma_prefix_join(enc_inputs(am.inputs), seq![']'], t.skip(11));
    assert(m =~= seq![']'] + ",\"outputs\":["@);
    lemma_prefix_parts(seq![']'], ",\"outputs\":["@, t.skip(11 + li));
    assert(t.skip(11 + li).skip(1) =~= t.skip(12 + li));
    lemma_prefix_first(f, t.skip(24 + li + lo));
    assert(t[24 + li + lo] == ']');
    assert(t[25 + li + lo] == '}');
    lemma_char_prefix(']', t.skip(24 + li + lo));
    assert(t.skip(24 + li).skip(lo) =~= t.skip(24 + li + lo));
    lemma_prefix_join(enc_outputs(am.outputs), seq![']'], t.skip(24 + li));
}

/// Two ABI documents read from the same characters are the same document.
pub proof fn lemma_abi_det(a1: AbiModel, a2: AbiModel, t: Seq<char>)
    requires
        enc_abi(a1).is_prefix_of(t),
        enc_abi(a2).is_prefix_of(t),
    ensures
        a1 == a2,
        enc_abi(a1) == enc_abi(a2),
{
    lemma_tok_facts();
    let h = "{\"inputs\":["@;
    let m = "],\"outputs\":["@;
    let f = "]}"@;
    lemma_prefix_parts(h + enc_inputs(a1.inputs) + m + enc_outputs(a1.outputs), f, t);
    lemma_prefix_parts(h + enc_inputs(a1.inputs) + m, enc_outputs(a1.outputs), t);
    lemma_prefix_parts(h + enc_inputs(a1.inputs), m, t);
    lemma_prefix_parts(h, enc_inputs(a1.inputs), t);
    lemma_prefix_parts(h + enc_inputs(a2.inputs) + m + enc_outputs(a2.outputs), f, t);
    lemma_prefix_parts(h + enc_inputs(a2.inputs) + m, enc_outputs(a2.outputs), t);
    lemma_prefix_parts(h + enc_inputs(a2.inputs), m, t);
    lemma_prefix_parts(h, enc_inputs(a2.inputs), t);
    let u = t.skip(11);
    let l1 = enc_inputs(a1.inputs).len() as int;
    let l2 = enc_inputs(a2.inputs).len() as int;
    lemma_prefix_first(m, t.skip(11 + l1));
    lemma_prefix_first(m, t.skip(11 + l2));
    assert(t[11 + l1] == ']');
    assert(t[11 + l2] == ']');
    lemma_char_prefix(']', t.skip(11 + l1));
    lemma_char_prefix(']', t.skip(11 + l2));
    assert(u.skip(l1) =~= t.skip(11 + l1));
    assert(u.skip(l2) =~= t.skip(11 + l2));
    lemma_prefix_join(enc_inputs(a1.inputs), seq![']'], u);
    lemma_prefix_join(enc_inputs(a2.inputs), seq![']'], u);
    lemma_inputs_det(a1.inputs, a2.inputs, u);
    assert(l1 == l2);
    let p2 = 11 + l1 + 13;
    let w = t.skip(p2);
    let o1 = enc_outputs(a1.outputs).len() as int;
    let o2 = enc_outputs(a2.outputs).len() as int;
    lemma_prefix_first(f, t.skip(p2 + o1));
    lemma_prefix_first(f, t.skip(p2 + o2));
    assert(t[p2 + o1] == ']');
    assert(t[p2 + o2] == ']');
    lemma_char_prefix(']', t.skip(p2 + o1));
    lemma_char_prefix(']', t.skip(p2 + o2));
    assert(w.skip(o1) =~= t.skip(p2 + o1));
    assert(w.skip(o2) =~= t.skip(p2 + o2));
    lemma_prefix_join(enc_outputs(a1.outputs), seq![']'], w);
    lemma_prefix_join(enc_outputs(a2.outputs), seq![']'], w);
    lemma_outputs_det(a1.outputs, a2.outputs, w);
    assert(a1 =~= a2);
}

/// The round-trip law: the canonical encoding is injective, so an encoded
/// document denotes exactly one ABI value, and decoding what `Abi::encode`
/// produced recovers a document with the original's model.
pub proof fn lemma_enc_abi_injective(a1: AbiModel, a2: AbiModel)
    requires
        enc_abi(a1) == enc_abi(a2),
    ensures
        a1 == a2,
{
    let t = enc_abi(a1);
    assert(enc_abi(a1) =~= t.subrange(0, t.len() as int));
    assert(enc_abi(a1).is_prefix_of(t));
    assert(enc_abi(a2).is_prefix_of(t));
    lemma_abi_det(a1, a2, t);
}

/// The round-trip law: decoding what `Abi::encode` produced yields a
/// document with the same model, structurally equal input for input and
/// output for output.  `a` stands for the document that was encoded and
/// `b` for the decode result: the premises are exactly what
/// `Abi::encode` ensures of its output and what `Abi::decode` ensures of
/// an accepted input, and `Abi::decode` cannot reject an encoding, since
/// by `crate::abi::lemma_abi_model_fits` every encoded model fits.
pub proof fn lemma_round_trip(a: Abi, s: Seq<char>, b: Abi)
    requires
        s == enc_abi(a.model()),
        s == enc_abi(b.model()),
    ensures
        b.model() == a.model(),
{
    lemma_enc_abi_injective(a.model(), b.model());
}

} // verus!

