//! The canonical textual encoding of ABI documents.
//!
//! Every encoded type document carries a `type` discriminant (`field`,
//! `bool`, `array` or `struct`); compound kinds nest their payload under a
//! `components` object, with the element type's own discriminant and payload
//! flattened into it.  The encoding is deterministic: field order is fixed
//! and input, output and member order is preserved exactly.
//!
//! The `enc_*` spec functions define the encoding mathematically; the
//! executable encoder is proved to produce exactly that character sequence.

use vstd::prelude::*;
use vstd::string::StrSliceExecFns;
use vstd::string::StringExecFns;

use crate::abi::{input_models, type_models, Abi, AbiInput, AbiModel, InputModel};
use crate::types::{
    members_model, ConcreteStructMember, ConcreteType, MemberModel, TypeModel,
};

verus! {

/// The encoding of one character inside a quoted string: quotes and
/// backslashes are escaped with a backslash, every other character stands
/// for itself.
pub open spec fn esc_char(c: char) -> Seq<char> {
    if c == '"' || c == '\\' {
        seq!['\\', c]
    } else {
        seq![c]
    }
}

/// The escaped form of a character sequence.
pub open spec fn esc(s: Seq<char>) -> Seq<char>
    decreases s.len(),
{
    if s.len() == 0 {
        Seq::empty()
    } else {
        esc_char(s[0]) + esc(s.drop_first())
    }
}

/// A quoted string document: the escaped characters between two quotes.
pub open spec fn quoted(s: Seq<char>) -> Seq<char> {
    seq!['"'] + esc(s) + seq!['"']
}

/// The character for one decimal digit.
pub open spec fn digit_char(d: nat) -> char {
    if d == 0 {
        '0'
    } else if d == 1 {
        '1'
    } else if d == 2 {
        '2'
    } else if d == 3 {
        '3'
    } else if d == 4 {
        '4'
    } else if d == 5 {
        '5'
    } else if d == 6 {
        '6'
    } else if d == 7 {
        '7'
    } else if d == 8 {
        '8'
    } else {
        '9'
    }
}

/// Whether a character is a decimal digit.
pub open spec fn is_digit(c: char) -> bool {
    c == '0' || c == '1' || c == '2' || c == '3' || c == '4' || c == '5' || c == '6' || c == '7'
        || c == '8' || c == '9'
}

/// The canonical decimal digits of a non-negative integer: no sign, no
/// leading zero except for zero itself.
pub open spec fn dec_digits(n: nat) -> Seq<char>
    decreases n,
{
    if n < 10 {
        seq![digit_char(n)]
    } else {
        dec_digits(n / 10) + seq![digit_char(n % 10)]
    }
}

/// The discriminant word of a type document, with its closing quote.
pub open spec fn kind_word(m: TypeModel) -> Seq<char> {
    match m {
        TypeModel::Field => "field\""@,
        TypeModel::Bool => "bool\""@,
        TypeModel::Array(..) => "array\""@,
        TypeModel::Struct(..) => "struct\""@,
    }
}

/// The body of a type document: the discriminant and, for compound kinds,
/// the `components` payload with the nested type flattened into it.
pub open spec fn enc_ty_body(m: TypeModel) -> Seq<char>
    decreases m,
{
    match m {
        TypeModel::Field => "\"type\":\""@ + "field\""@,
        TypeModel::Bool => "\"type\":\""@ + "bool\""@,
        TypeModel::Array(e, n) => "\"type\":\""@ + "array\""@ + ",\"components\":{\"size\":"@
            + dec_digits(n) + ","@ + enc_ty_body(*e) + "}"@,
        TypeModel::Struct(nm, ms) => "\"type\":\""@ + "struct\""@
            + ",\"components\":{\"name\":"@ + quoted(nm) + ",\"members\":["@ + enc_members(ms)
            + "]}"@,
    }
}

/// The document of one struct member: its name and its type's body.
pub open spec fn enc_member(m: MemberModel) -> Seq<char>
    decreases m,
{
    "{\"name\":"@ + quoted(m.name) + ","@ + enc_ty_body(m.ty) + "}"@
}

/// A comma-separated sequence of member documents.
pub open spec fn enc_members(ms: Seq<MemberModel>) -> Seq<char>
    decreases ms,
{
    if ms.len() == 0 {
        Seq::empty()
    } else if ms.len() == 1 {
        enc_member(ms[0])
    } else {
        enc_member(ms[0]) + ","@ + enc_members(ms.drop_first())
    }
}

/// A bare type document, as used for outputs and nested types.
pub open spec fn enc_ty(m: TypeModel) -> Seq<char> {
    "{"@ + enc_ty_body(m) + "}"@
}

/// The document of one ABI input: name, visibility, then the type's body
/// flattened in.
pub open spec fn enc_input(i: InputModel) -> Seq<char> {
    "{\"name\":"@ + quoted(i.name) + ",\"public\":"@ + (if i.public {
        "true"@
    } else {
        "false"@
    }) + ","@ + enc_ty_body(i.ty) + "}"@
}

/// A comma-separated sequence of input documents.
pub open spec fn enc_inputs(s: Seq<InputModel>) -> Seq<char>
    decreases s,
{
    if s.len() == 0 {
        Seq::empty()
    } else if s.len() == 1 {
        enc_input(s[0])
    } else {
        enc_input(s[0]) + ","@ + enc_inputs(s.drop_first())
    }
}

/// A comma-separated sequence of output type documents.
pub open spec fn enc_outputs(s: Seq<TypeModel>) -> Seq<char>
    decreases s,
{
    if s.len() == 0 {
        Seq::empty()
    } else if s.len() == 1 {
        enc_ty(s[0])
    } else {
        enc_ty(s[0]) + ","@ + enc_outputs(s.drop_first())
    }
}

/// The top-level ABI document: the inputs then the outputs.
pub open spec fn enc_abi(a: AbiModel) -> Seq<char> {
    "{\"inputs\":["@ + enc_inputs(a.inputs) + "],\"outputs\":["@ + enc_outputs(a.outputs) + "]}"@
}

/// Escaping distributes over concatenation.
pub proof fn lemma_esc_app(a: Seq<char>, b: Seq<char>)
    ensures
        esc(a + b) == esc(a) + esc(b),
    decreases a.len(),
{
    if a.len() == 0 {
        assert(a + b =~= b);
        assert(esc(a) + esc(b) =~= esc(b));
    } else {
        lemma_esc_app(a.drop_first(), b);
        assert((a + b).drop_first() =~= a.drop_first() + b);
        assert((a + b)[0] == a[0]);
        assert(esc(a + b) =~= esc(a) + esc(b));
    }
}

/// The escaped form of a single character.
pub proof fn lemma_esc_one(c: char)
    ensures
        esc(seq![c]) == esc_char(c),
{
    reveal_with_fuel(esc, 2);
    assert(seq![c].drop_first() =~= Seq::<char>::empty());
    assert(esc(seq![c]) =~= esc_char(c));
}

/// One decimal digit as a string slice.
fn digit_str(d: usize) -> (r: &'static str)
    requires
        d < 10,
    ensures
        r@ == seq![digit_char(d as nat)],
{
    proof {
        reveal_strlit("0");
        reveal_strlit("1");
        reveal_strlit("2");
        reveal_strlit("3");
        reveal_strlit("4");
        reveal_strlit("5");
        reveal_strlit("6");
        reveal_strlit("7");
        reveal_strlit("8");
        reveal_strlit("9");
    }
    let r = if d == 0 {
        "0"
    } else if d == 1 {
        "1"
    } else if d == 2 {
        "2"
    } else if d == 3 {
        "3"
    } else if d == 4 {
        "4"
    } else if d == 5 {
        "5"
    } else if d == 6 {
        "6"
    } else if d == 7 {
        "7"
    } else if d == 8 {
        "8"
    } else {
        "9"
    };
    proof {
        assert(r@ =~= seq![digit_char(d as nat)]);
    }
    r
}

/// Appends the canonical decimal digits of `v`.
pub(crate) fn write_number(out: &mut String, v: usize)
    ensures
        final(out)@ == old(out)@ + dec_digits(v as nat),
    decreases v,
{
    if v < 10 {
        out.append(digit_str(v));
    } else {
        write_number(out, v / 10);
        out.append(digit_str(v % 10));
        proof {
            assert(out@ =~= old(out)@ + dec_digits(v as nat));
        }
    }
}

/// Appends the quoted, escaped form of `s`.
pub(crate) fn write_quoted(out: &mut String, s: &str)
    ensures
        final(out)@ == old(out)@ + quoted(s@),
{
    out.append("\"");
    let n = s.unicode_len();
    let mut i: usize = 0;
    proof {
        reveal_strlit("\"");
        assert(s@.take(0) =~= Seq::<char>::empty());
        assert(out@ =~= old(out)@ + seq!['"'] + esc(s@.take(0)));
    }
    while i < n
        invariant
            i <= n,
            n == s@.len(),
            out@ == old(out)@ + seq!['"'] + esc(s@.take(i as int)),
        decreases n - i,
    {
        let ghost prefix = out@;
        let c = s.get_char(i);
        if c == '"' || c == '\\' {
            out.append("\\");
        }
        let piece = s.substring_char(i, i + 1);
        out.append(piece);
        proof {
            reveal_strlit("\\");
            assert(piece@ =~= seq![c]);
            if c == '"' || c == '\\' {
                assert(out@ =~= prefix + esc_char(c));
            } else {
                assert(out@ =~= prefix + esc_char(c));
            }
            lemma_esc_app(s@.take(i as int), seq![c]);
            lemma_esc_one(c);
            assert(s@.take(i as int) + seq![c] =~= s@.take(i + 1));
            assert(out@ =~= old(out)@ + seq!['"'] + esc(s@.take(i + 1)));
        }
        i += 1;
    }
    out.append("\"");
    proof {
        reveal_strlit("\"");
        assert(s@.take(n as int) =~= s@);
        assert(out@ =~= old(out)@ + quoted(s@));
    }
}

/// Appends the body of the type document for `t`.
fn write_ty_body(t: &ConcreteType, out: &mut String)
    ensures
        final(out)@ == old(out)@ + enc_ty_body(t.model()),
    decreases *t,
{
    match t {
        ConcreteType::FieldElement => {
            out.append("\"type\":\"");
            out.append("field\"");
            proof {
                assert(out@ =~= old(out)@ + enc_ty_body(t.model()));
            }
        },
        ConcreteType::Boolean => {
            out.append("\"type\":\"");
            out.append("bool\"");
            proof {
                assert(out@ =~= old(out)@ + enc_ty_body(t.model()));
            }
        },
        ConcreteType::Array(a) => {
            out.append("\"type\":\"");
            out.append("array\"");
            out.append(",\"components\":{\"size\":");
            write_number(out, a.size);
            out.append(",");
            write_ty_body(&a.ty, out);
            out.append("}");
            proof {
                assert(out@ =~= old(out)@ + enc_ty_body(t.model()));
            }
        },
        ConcreteType::Struct(st) => {
            out.append("\"type\":\"");
            out.append("struct\"");
            out.append(",\"components\":{\"name\":");
            write_quoted(out, st.name.as_str());
            out.append(",\"members\":[");
            write_members_from(&st.members, 0, out);
            out.append("]}");
            proof {
                assert(members_model(st.members@).skip(0) =~= members_model(st.members@));
                assert(out@ =~= old(out)@ + enc_ty_body(t.model()));
            }
        },
    }
}

/// Appends the document of one struct member.
fn write_member(m: &ConcreteStructMember, out: &mut String)
    ensures
        final(out)@ == old(out)@ + enc_member(m.model()),
    decreases *m,
{
    out.append("{\"name\":");
    write_quoted(out, m.name.as_str());
    out.append(",");
    write_ty_body(&m.ty, out);
    out.append("}");
    proof {
        assert(out@ =~= old(out)@ + enc_member(m.model()));
    }
}

/// Appends the comma-separated member documents from index `from` on.
fn write_members_from(members: &Vec<ConcreteStructMember>, from: usize, out: &mut String)
    requires
        from <= members@.len(),
    ensures
        final(out)@ == old(out)@ + enc_members(members_model(members@).skip(from as int)),
    decreases members, members@.len() - from,
{
    proof {
        crate::types::lemma_members_model_pointwise(members@);
    }
    if from < members.len() {
        write_member(&members[from], out);
        if from + 1 < members.len() {
            out.append(",");
        }
        write_members_from(members, from + 1, out);
        proof {
            let ghost ms = members_model(members@);
            assert(ms.skip(from as int)[0] == members@[from as int].model());
            assert(ms.skip(from as int).drop_first() =~= ms.skip(from as int + 1));
            if from + 1 < members@.len() {
                assert(ms.skip(from as int).len() > 1);
            } else {
                assert(ms.skip(from as int).len() == 1);
            }
            assert(out@ =~= old(out)@ + enc_members(ms.skip(from as int)));
        }
    } else {
        proof {
            assert(members_model(members@).skip(from as int) =~= Seq::<MemberModel>::empty());
        }
    }
}

/// Appends the document of one ABI input.
fn write_input(inp: &AbiInput, out: &mut String)
    ensures
        final(out)@ == old(out)@ + enc_input(inp.model()),
{
    out.append("{\"name\":");
    write_quoted(out, inp.name.as_str());
    out.append(",\"public\":");
    if inp.public {
        out.append("true");
    } else {
        out.append("false");
    }
    out.append(",");
    write_ty_body(&inp.ty, out);
    out.append("}");
    proof {
        assert(out@ =~= old(out)@ + enc_input(inp.model()));
    }
}

/// Appends the comma-separated input documents from index `from` on.
fn write_inputs_from(inputs: &Vec<AbiInput>, from: usize, out: &mut String)
    requires
        from <= inputs@.len(),
    ensures
        final(out)@ == old(out)@ + enc_inputs(input_models(inputs@).skip(from as int)),
    decreases inputs@.len() - from,
{
    proof {
        crate::abi::lemma_input_models_pointwise(inputs@);
    }
    if from < inputs.len() {
        write_input(&inputs[from], out);
        if from + 1 < inputs.len() {
            out.append(",");
        }
        write_inputs_from(inputs, from + 1, out);
        proof {
            let ghost ims = input_models(inputs@);
            assert(ims.skip(from as int)[0] == inputs@[from as int].model());
            assert(ims.skip(from as int).drop_first() =~= ims.skip(from as int + 1));
            assert(out@ =~= old(out)@ + enc_inputs(ims.skip(from as int)));
        }
    } else {
        proof {
            assert(input_models(inputs@).skip(from as int) =~= Seq::<InputModel>::empty());
        }
    }
}

/// Appends the comma-separated output type documents from index `from` on.
fn write_outputs_from(outputs: &Vec<ConcreteType>, from: usize, out: &mut String)
    requires
        from <= outputs@.len(),
    ensures
        final(out)@ == old(out)@ + enc_outputs(type_models(outputs@).skip(from as int)),
    decreases outputs@.len() - from,
{
    proof {
        crate::abi::lemma_type_models_pointwise(outputs@);
    }
    if from < outputs.len() {
        out.append("{");
        write_ty_body(&outputs[from], out);
        out.append("}");
        if from + 1 < outputs.len() {
            out.append(",");
        }
        write_outputs_from(outputs, from + 1, out);
        proof {
            let ghost oms = type_models(outputs@);
            assert(oms.skip(from as int)[0] == outputs@[from as int].model());
            assert(oms.skip(from as int).drop_first() =~= oms.skip(from as int + 1));
            assert(out@ =~= old(out)@ + enc_outputs(oms.skip(from as int)));
        }
    } else {
        proof {
            assert(type_models(outputs@).skip(from as int) =~= Seq::<TypeModel>::empty());
        }
    }
}

impl Abi {
    /// Encodes the document in its canonical textual form.
    ///
    /// The result is exactly the character sequence `enc_abi` gives for the
    /// document's model; `Abi::decode` inverts it.
    pub fn encode(&self) -> (r: String)
        ensures
            r@ == enc_abi(self.model()),
    {
        let mut out = String::new();
        out.append("{\"inputs\":[");
        write_inputs_from(&self.inputs, 0, &mut out);
        out.append("],\"outputs\":[");
        write_outputs_from(&self.outputs, 0, &mut out);
        out.append("]}");
        proof {
            assert(input_models(self.inputs@).skip(0) =~= input_models(self.inputs@));
            assert(type_models(self.outputs@).skip(0) =~= type_models(self.outputs@));
            assert(out@ =~= enc_abi(self.model()));
        }
        out
    }
}

} // verus!
