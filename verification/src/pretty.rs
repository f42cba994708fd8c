//! A human-readable rendering of ABI documents.
//!
//! The pretty form carries the same fields in the same order as the
//! canonical encoding of [`crate::encode`], with each object entry on its
//! own line and nesting shown by two spaces of indentation per level.
//! `Abi::decode` inverts the canonical form, not this display form.

use vstd::prelude::*;
use vstd::string::StrSliceExecFns;
use vstd::string::StringExecFns;

use crate::abi::{input_models, type_models, Abi, AbiInput, AbiModel, InputModel};
use crate::encode::{dec_digits, quoted};
use crate::types::{members_model, ConcreteStructMember, ConcreteType, MemberModel, TypeModel};

verus! {

/// Two more spaces: one further level of indentation.
pub open spec fn deeper(q: Seq<char>) -> Seq<char> {
    q + "  "@
}

/// The entries of a pretty type document whose own entries are indented by
/// `q`.
pub open spec fn pty_body(m: TypeModel, q: Seq<char>) -> Seq<char>
    decreases m, 0int,
{
    match m {
        TypeModel::Field => "\"type\": \""@ + "field\""@,
        TypeModel::Bool => "\"type\": \""@ + "bool\""@,
        TypeModel::Array(e, n) => "\"type\": \""@ + "array\""@ + ",\n"@ + q
            + "\"components\": {\n"@ + deeper(q) + "\"size\": "@ + dec_digits(n) + ",\n"@
            + deeper(q) + pty_body(*e, deeper(q)) + "\n"@ + q + "}"@,
        TypeModel::Struct(nm, ms) => "\"type\": \""@ + "struct\""@ + ",\n"@ + q
            + "\"components\": {\n"@ + deeper(q) + "\"name\": "@ + quoted(nm) + ",\n"@ + deeper(
            q,
        ) + "\"members\": "@ + parr_members(ms, deeper(q)) + "\n"@ + q + "}"@,
    }
}

/// One pretty member object closed at indentation `q`.
pub open spec fn pmember(mm: MemberModel, q: Seq<char>) -> Seq<char>
    decreases mm, 0int,
{
    "{\n"@ + deeper(q) + "\"name\": "@ + quoted(mm.name) + ",\n"@ + deeper(q) + pty_body(
        mm.ty,
        deeper(q),
    ) + "\n"@ + q + "}"@
}

/// Pretty member objects, one per line at indentation `q`, separated by
/// commas.
pub open spec fn plist_members(ms: Seq<MemberModel>, q: Seq<char>) -> Seq<char>
    decreases ms, 1int,
{
    if ms.len() == 0 {
        Seq::empty()
    } else if ms.len() == 1 {
        q + pmember(ms[0], q)
    } else {
        q + pmember(ms[0], q) + ",\n"@ + plist_members(ms.drop_first(), q)
    }
}

/// A pretty member array closed at indentation `q`.
pub open spec fn parr_members(ms: Seq<MemberModel>, q: Seq<char>) -> Seq<char>
    decreases ms, 2int,
{
    if ms.len() == 0 {
        "[]"@
    } else {
        "[\n"@ + plist_members(ms, deeper(q)) + "\n"@ + q + "]"@
    }
}

/// One pretty input object closed at indentation `q`.
pub open spec fn pinput(im: InputModel, q: Seq<char>) -> Seq<char> {
    "{\n"@ + deeper(q) + "\"name\": "@ + quoted(im.name) + ",\n"@ + deeper(q) + "\"public\": "@
        + (if im.public {
        "true"@
    } else {
        "false"@
    }) + ",\n"@ + deeper(q) + pty_body(im.ty, deeper(q)) + "\n"@ + q + "}"@
}

/// Pretty input objects, one per line at indentation `q`, separated by
/// commas.
pub open spec fn plist_inputs(s: Seq<InputModel>, q: Seq<char>) -> Seq<char>
    decreases s,
{
    if s.len() == 0 {
        Seq::empty()
    } else if s.len() == 1 {
        q + pinput(s[0], q)
    } else {
        q + pinput(s[0], q) + ",\n"@ + plist_inputs(s.drop_first(), q)
    }
}

/// A pretty input array closed at indentation `q`.
pub open spec fn parr_inputs(s: Seq<InputModel>, q: Seq<char>) -> Seq<char> {
    if s.len() == 0 {
        "[]"@
    } else {
        "[\n"@ + plist_inputs(s, deeper(q)) + "\n"@ + q + "]"@
    }
}

/// One pretty output object closed at indentation `q`.
pub open spec fn poutput(x: TypeModel, q: Seq<char>) -> Seq<char> {
    "{\n"@ + deeper(q) + pty_body(x, deeper(q)) + "\n"@ + q + "}"@
}

/// Pretty output objects, one per line at indentation `q`, separated by
/// commas.
pub open spec fn plist_outputs(s: Seq<TypeModel>, q: Seq<char>) -> Seq<char>
    decreases s,
{
    if s.len() == 0 {
        Seq::empty()
    } else if s.len() == 1 {
        q + poutput(s[0], q)
    } else {
        q + poutput(s[0], q) + ",\n"@ + plist_outputs(s.drop_first(), q)
    }
}

/// A pretty output array closed at indentation `q`.
pub open spec fn parr_outputs(s: Seq<TypeModel>, q: Seq<char>) -> Seq<char> {
    if s.len() == 0 {
        "[]"@
    } else {
        "[\n"@ + plist_outputs(s, deeper(q)) + "\n"@ + q + "]"@
    }
}

/// The pretty form of a whole ABI document.
pub open spec fn penc_abi(a: AbiModel) -> Seq<char> {
    "{\n  \"inputs\": "@ + parr_inputs(a.inputs, "  "@) + ",\n  \"outputs\": "@ + parr_outputs(
        a.outputs,
        "  "@,
    ) + "\n}"@
}

/// Appends one further level of indentation to a copy of `q`.
fn push_level(q: &str) -> (r: String)
    ensures
        r@ == deeper(q@),
{
    let mut r = String::from_str(q);
    r.append("  ");
    proof {
        assert(r@ =~= deeper(q@));
    }
    r
}

/// Appends the entries of the pretty type document for `t`.
#[verifier::rlimit(100)]
fn write_pty_body(t: &ConcreteType, q: &str, out: &mut String)
    ensures
        final(out)@ == old(out)@ + pty_body(t.model(), q@),
    decreases *t,
{
    match t {
        ConcreteType::FieldElement => {
            out.append("\"type\": \"");
            out.append("field\"");
            proof {
                assert(out@ =~= old(out)@ + pty_body(t.model(), q@));
            }
        },
        ConcreteType::Boolean => {
            out.append("\"type\": \"");
            out.append("bool\"");
            proof {
                assert(out@ =~= old(out)@ + pty_body(t.model(), q@));
            }
        },
        ConcreteType::Array(a) => {
            let q2 = push_level(q);
            out.append("\"type\": \"");
            out.append("array\"");
            out.append(",\n");
            out.append(q);
            out.append("\"components\": {\n");
            out.append(q2.as_str());
            out.append("\"size\": ");
            crate::encode::write_number(out, a.size);
            out.append(",\n");
            out.append(q2.as_str());
            write_pty_body(&a.ty, q2.as_str(), out);
            out.append("\n");
            out.append(q);
            out.append("}");
            proof {
                assert(out@ =~= old(out)@ + pty_body(t.model(), q@));
            }
        },
        ConcreteType::Struct(st) => {
            let q2 = push_level(q);
            out.append("\"type\": \"");
            out.append("struct\"");
            out.append(",\n");
            out.append(q);
            out.append("\"components\": {\n");
            out.append(q2.as_str());
            out.append("\"name\": ");
            crate::encode::write_quoted(out, st.name.as_str());
            out.append(",\n");
            out.append(q2.as_str());
            out.append("\"members\": ");
            write_parr_members(&st.members, q2.as_str(), out);
            out.append("\n");
            out.append(q);
            out.append("}");
            proof {
                assert(out@ =~= old(out)@ + pty_body(t.model(), q@));
            }
        },
    }
}

/// Appends one pretty member object.
fn write_pmember(m: &ConcreteStructMember, q: &str, out: &mut String)
    ensures
        final(out)@ == old(out)@ + pmember(m.model(), q@),
    decreases *m,
{
    let q2 = push_level(q);
    out.append("{\n");
    out.append(q2.as_str());
    out.append("\"name\": ");
    crate::encode::write_quoted(out, m.name.as_str());
    out.append(",\n");
    out.append(q2.as_str());
    write_pty_body(&m.ty, q2.as_str(), out);
    out.append("\n");
    out.append(q);
    out.append("}");
    proof {
        assert(out@ =~= old(out)@ + pmember(m.model(), q@));
    }
}

/// Appends the pretty member lines from index `from` on.
fn write_plist_members_from(
    members: &Vec<ConcreteStructMember>,
    from: usize,
    q: &str,
    out: &mut String,
)
    requires
        from <= members@.len(),
    ensures
        final(out)@ == old(out)@ + plist_members(members_model(members@).skip(from as int), q@),
    decreases members, members@.len() - from,
{
    proof {
        crate::types::lemma_members_model_pointwise(members@);
    }
    if from < members.len() {
        out.append(q);
        write_pmember(&members[from], q, out);
        if from + 1 < members.len() {
            out.append(",\n");
        }
        write_plist_members_from(members, from + 1, q, out);
        proof {
            let ghost ms = members_model(members@);
            assert(ms.skip(from as int)[0] == members@[from as int].model());
            assert(ms.skip(from as int).drop_first() =~= ms.skip(from as int + 1));
            assert(out@ =~= old(out)@ + plist_members(ms.skip(from as int), q@));
        }
    } else {
        proof {
            assert(members_model(members@).skip(from as int) =~= Seq::<MemberModel>::empty());
        }
    }
}

/// Appends a pretty member array.
fn write_parr_members(members: &Vec<ConcreteStructMember>, q: &str, out: &mut String)
    ensures
        final(out)@ == old(out)@ + parr_members(members_model(members@), q@),
    decreases members, members@.len() + 1,
{
    proof {
        crate::types::lemma_members_model_pointwise(members@);
    }
    if members.len() == 0 {
        out.append("[]");
    } else {
        let q2 = push_level(q);
        out.append("[\n");
        write_plist_members_from(members, 0, q2.as_str(), out);
        out.append("\n");
        out.append(q);
        out.append("]");
        proof {
            assert(members_model(members@).skip(0) =~= members_model(members@));
            assert(out@ =~= old(out)@ + parr_members(members_model(members@), q@));
        }
    }
}

/// Appends one pretty input object.
fn write_pinput(inp: &AbiInput, q: &str, out: &mut String)
    ensures
        final(out)@ == old(out)@ + pinput(inp.model(), q@),
{
    let q2 = push_level(q);
    out.append("{\n");
    out.append(q2.as_str());
    out.append("\"name\": ");
    crate::encode::write_quoted(out, inp.name.as_str());
    out.append(",\n");
    out.append(q2.as_str());
    out.append("\"public\": ");
    if inp.public {
        out.append("true");
    } else {
        out.append("false");
    }
    out.append(",\n");
    out.append(q2.as_str());
    write_pty_body(&inp.ty, q2.as_str(), out);
    out.append("\n");
    out.append(q);
    out.append("}");
    proof {
        assert(out@ =~= old(out)@ + pinput(inp.model(), q@));
    }
}

/// Appends the pretty input lines from index `from` on.
fn write_plist_inputs_from(inputs: &Vec<AbiInput>, from: usize, q: &str, out: &mut String)
    requires
        from <= inputs@.len(),
    ensures
        final(out)@ == old(out)@ + plist_inputs(input_models(inputs@).skip(from as int), q@),
    decreases inputs@.len() - from,
{
    proof {
        crate::abi::lemma_input_models_pointwise(inputs@);
    }
    if from < inputs.len() {
        out.append(q);
        write_pinput(&inputs[from], q, out);
        if from + 1 < inputs.len() {
            out.append(",\n");
        }
        write_plist_inputs_from(inputs, from + 1, q, out);
        proof {
            let ghost ims = input_models(inputs@);
            assert(ims.skip(from as int)[0] == inputs@[from as int].model());
            assert(ims.skip(from as int).drop_first() =~= ims.skip(from as int + 1));
            assert(out@ =~= old(out)@ + plist_inputs(ims.skip(from as int), q@));
        }
    } else {
        proof {
            assert(input_models(inputs@).skip(from as int) =~= Seq::<InputModel>::empty());
        }
    }
}

/// Appends one pretty output object.
fn write_poutput(t: &ConcreteType, q: &str, out: &mut String)
    ensures
        final(out)@ == old(out)@ + poutput(t.model(), q@),
{
    let q2 = push_level(q);
    out.append("{\n");
    out.append(q2.as_str());
    write_pty_body(t, q2.as_str(), out);
    out.append("\n");
    out.append(q);
    out.append("}");
    proof {
        assert(out@ =~= old(out)@ + poutput(t.model(), q@));
    }
}

/// Appends the pretty output lines from index `from` on.
fn write_plist_outputs_from(outputs: &Vec<ConcreteType>, from: usize, q: &str, out: &mut String)
    requires
        from <= outputs@.len(),
    ensures
        final(out)@ == old(out)@ + plist_outputs(type_models(outputs@).skip(from as int), q@),
    decreases outputs@.len() - from,
{
    proof {
        crate::abi::lemma_type_models_pointwise(outputs@);
    }
    if from < outputs.len() {
        out.append(q);
        write_poutput(&outputs[from], q, out);
        if from + 1 < outputs.len() {
            out.append(",\n");
        }
        write_plist_outputs_from(outputs, from + 1, q, out);
        proof {
            let ghost oms = type_models(outputs@);
            assert(oms.skip(from as int)[0] == outputs@[from as int].model());
            assert(oms.skip(from as int).drop_first() =~= oms.skip(from as int + 1));
            assert(out@ =~= old(out)@ + plist_outputs(oms.skip(from as int), q@));
        }
    } else {
        proof {
            assert(type_models(outputs@).skip(from as int) =~= Seq::<TypeModel>::empty());
        }
    }
}

impl Abi {
    /// Renders the document in its pretty, indented form.
    ///
    /// The result is exactly the character sequence `penc_abi` gives for
    /// the document's model.
    #[verifier::rlimit(100)]
    pub fn encode_pretty(&self) -> (r: String)
        ensures
            r@ == penc_abi(self.model()),
    {
        let mut out = String::new();
        out.append("{\n  \"inputs\": ");
        if self.inputs.len() == 0 {
            out.append("[]");
        } else {
            out.append("[\n");
            write_plist_inputs_from(&self.inputs, 0, "    ", &mut out);
            out.append("\n");
            out.append("  ");
            out.append("]");
        }
        out.append(",\n  \"outputs\": ");
        if self.outputs.len() == 0 {
            out.append("[]");
        } else {
            out.append("[\n");
            write_plist_outputs_from(&self.outputs, 0, "    ", &mut out);
            out.append("\n");
            out.append("  ");
            out.append("]");
        }
        out.append("\n}");
        proof {
            crate::laws::lemma_tok_facts();
            reveal_strlit("    ");
            reveal_strlit("  ");
            assert("    "@ =~= deeper("  "@));
            assert(input_models(self.inputs@).skip(0) =~= input_models(self.inputs@));
            assert(type_models(self.outputs@).skip(0) =~= type_models(self.outputs@));
            assert(out@ =~= penc_abi(self.model()));
        }
        out
    }
}

} // verus!
