//! The ABI document: named, visibility-flagged inputs paired with structural
//! types, plus an ordered list of output types; its derivation from an entry
//! function and its projection to a bare signature.

use vstd::prelude::*;

use crate::types::{fits_ty, lemma_model_fits, ConcreteType, TypeModel};

verus! {

/// One named input of the ABI.
///
/// `public` is `true` when the value is disclosed to a verifier and `false`
/// when it stays private to the prover.
#[derive(Debug, PartialEq, Eq)]
pub struct AbiInput {
    /// The input's name, for documentation and tooling.
    pub name: String,
    /// Whether the value is disclosed to a verifier.
    pub public: bool,
    /// The input's structural type.
    pub ty: ConcreteType,
}

/// One output of the ABI: outputs carry no name or visibility, only shape.
pub type AbiOutput = ConcreteType;

/// The ABI document: the sole externally persisted entity.
#[derive(Debug, PartialEq, Eq)]
pub struct Abi {
    /// The inputs, in declaration order.
    pub inputs: Vec<AbiInput>,
    /// The outputs, in declaration order.
    pub outputs: Vec<AbiOutput>,
}

/// A bare type signature: input and output types with names and visibility
/// dropped.
#[derive(Debug, PartialEq, Eq)]
pub struct ConcreteSignature {
    /// The input types, in order.
    pub inputs: Vec<ConcreteType>,
    /// The output types, in order.
    pub outputs: Vec<ConcreteType>,
}

/// One parameter of an entry function: a name, a privacy flag and a type.
///
/// `private` is `true` when the parameter is kept private to the prover; the
/// derived ABI input is then not public.
#[derive(Debug, PartialEq, Eq)]
pub struct EntryParameter {
    /// The parameter's name.
    pub name: String,
    /// Whether the parameter is kept private to the prover.
    pub private: bool,
    /// The parameter's structural type.
    pub ty: ConcreteType,
}

/// The fully-typed signature of a program's entry function, as handed over
/// by the upstream typed representation.
#[derive(Debug, PartialEq, Eq)]
pub struct EntryFunction {
    /// The parameters, in declaration order.
    pub parameters: Vec<EntryParameter>,
    /// The declared output types, in declaration order.
    pub outputs: Vec<ConcreteType>,
}

/// The mathematical model of one ABI input.
#[verifier::ext_equal]
pub struct InputModel {
    pub name: Seq<char>,
    pub public: bool,
    pub ty: TypeModel,
}

/// The mathematical model of an ABI document.
#[verifier::ext_equal]
pub struct AbiModel {
    pub inputs: Seq<InputModel>,
    pub outputs: Seq<TypeModel>,
}

/// The mathematical model of a bare signature.
#[verifier::ext_equal]
pub struct SignatureModel {
    pub inputs: Seq<TypeModel>,
    pub outputs: Seq<TypeModel>,
}

/// The mathematical model of one entry-function parameter.
#[verifier::ext_equal]
pub struct ParameterModel {
    pub name: Seq<char>,
    pub private: bool,
    pub ty: TypeModel,
}

/// The mathematical model of an entry-function signature.
#[verifier::ext_equal]
pub struct EntryModel {
    pub parameters: Seq<ParameterModel>,
    pub outputs: Seq<TypeModel>,
}

impl AbiInput {
    /// The value this input denotes in the mathematical model.
    pub open spec fn model(self) -> InputModel {
        InputModel { name: self.name@, public: self.public, ty: self.ty.model() }
    }
}

/// The models of an ordered sequence of ABI inputs.
pub open spec fn input_models(s: Seq<AbiInput>) -> Seq<InputModel>
    decreases s,
{
    if s.len() == 0 {
        Seq::empty()
    } else {
        seq![s[0].model()] + input_models(s.drop_first())
    }
}

/// The models of an ordered sequence of structural types.
pub open spec fn type_models(s: Seq<ConcreteType>) -> Seq<TypeModel>
    decreases s,
{
    if s.len() == 0 {
        Seq::empty()
    } else {
        seq![s[0].model()] + type_models(s.drop_first())
    }
}

/// The models of an ordered sequence of entry-function parameters.
pub open spec fn parameter_models(s: Seq<EntryParameter>) -> Seq<ParameterModel>
    decreases s,
{
    if s.len() == 0 {
        Seq::empty()
    } else {
        seq![ParameterModel { name: s[0].name@, private: s[0].private, ty: s[0].ty.model() }]
            + parameter_models(s.drop_first())
    }
}

/// `input_models` maps each input to its model, preserving length and order.
pub proof fn lemma_input_models_pointwise(s: Seq<AbiInput>)
    ensures
        input_models(s).len() == s.len(),
        forall|k: int| 0 <= k < s.len() ==> input_models(s)[k] == s[k].model(),
    decreases s,
{
    if s.len() > 0 {
        lemma_input_models_pointwise(s.drop_first());
        assert forall|k: int| 0 <= k < s.len() implies input_models(s)[k] == s[k].model() by {
            if k > 0 {
                assert(s.drop_first()[k - 1] == s[k]);
            }
        }
    }
}

/// `type_models` maps each type to its model, preserving length and order.
pub proof fn lemma_type_models_pointwise(s: Seq<ConcreteType>)
    ensures
        type_models(s).len() == s.len(),
        forall|k: int| 0 <= k < s.len() ==> type_models(s)[k] == s[k].model(),
    decreases s,
{
    if s.len() > 0 {
        lemma_type_models_pointwise(s.drop_first());
        assert forall|k: int| 0 <= k < s.len() implies type_models(s)[k] == s[k].model() by {
            if k > 0 {
                assert(s.drop_first()[k - 1] == s[k]);
            }
        }
    }
}

/// `parameter_models` maps each parameter to its model, preserving length
/// and order.
pub proof fn lemma_parameter_models_pointwise(s: Seq<EntryParameter>)
    ensures
        parameter_models(s).len() == s.len(),
        forall|k: int|
            0 <= k < s.len() ==> parameter_models(s)[k] == (ParameterModel {
                name: s[k].name@,
                private: s[k].private,
                ty: s[k].ty.model(),
            }),
    decreases s,
{
    if s.len() > 0 {
        lemma_parameter_models_pointwise(s.drop_first());
        assert forall|k: int|
            0 <= k < s.len() implies parameter_models(s)[k] == (ParameterModel {
            name: s[k].name@,
            private: s[k].private,
            ty: s[k].ty.model(),
        }) by {
            if k > 0 {
                assert(s.drop_first()[k - 1] == s[k]);
            }
        }
    }
}

impl Abi {
    /// The value this document denotes in the mathematical model.
    pub open spec fn model(self) -> AbiModel {
        AbiModel { inputs: input_models(self.inputs@), outputs: type_models(self.outputs@) }
    }

    /// Projects the document to a bare signature: the input types in order
    /// with names and visibility dropped, and the outputs unchanged.
    pub fn signature(&self) -> (res: ConcreteSignature)
        ensures
            res.model() == signature_of(self.model()),
    {
        let mut inputs: Vec<ConcreteType> = Vec::new();
        let n = self.inputs.len();
        let mut i: usize = 0;
        while i < n
            invariant
                i <= n,
                n == self.inputs@.len(),
                inputs@.len() == i,
                forall|k: int| 0 <= k < i ==> inputs@[k].model() == self.inputs@[k].ty.model(),
            decreases n - i,
        {
            let ty = self.inputs[i].ty.clone();
            inputs.push(ty);
            i += 1;
        }
        let mut outputs: Vec<ConcreteType> = Vec::new();
        let m = self.outputs.len();
        let mut j: usize = 0;
        while j < m
            invariant
                j <= m,
                m == self.outputs@.len(),
                outputs@.len() == j,
                forall|k: int| 0 <= k < j ==> outputs@[k].model() == self.outputs@[k].model(),
            decreases m - j,
        {
            let ty = self.outputs[j].clone();
            outputs.push(ty);
            j += 1;
        }
        let res = ConcreteSignature { inputs, outputs };
        proof {
            lemma_type_models_pointwise(res.inputs@);
            lemma_type_models_pointwise(res.outputs@);
            lemma_type_models_pointwise(self.outputs@);
            lemma_input_models_pointwise(self.inputs@);
            assert(res.model().inputs =~= signature_of(self.model()).inputs);
            assert(res.model().outputs =~= signature_of(self.model()).outputs);
            assert(res.model() =~= signature_of(self.model()));
        }
        res
    }

    /// Derives the ABI of a program from its entry function: one input per
    /// parameter, in declaration order, copying name, visibility and type
    /// verbatim, and one output per declared output type.
    pub fn from_entry(entry: &EntryFunction) -> (res: Abi)
        ensures
            res.model() == derived_abi(entry.model()),
    {
        let mut inputs: Vec<AbiInput> = Vec::new();
        let n = entry.parameters.len();
        let mut i: usize = 0;
        while i < n
            invariant
                i <= n,
                n == entry.parameters@.len(),
                inputs@.len() == i,
                forall|k: int|
                    0 <= k < i ==> inputs@[k].model() == (InputModel {
                        name: entry.parameters@[k].name@,
                        public: !entry.parameters@[k].private,
                        ty: entry.parameters@[k].ty.model(),
                    }),
            decreases n - i,
        {
            let p = &entry.parameters[i];
            let input = AbiInput { name: p.name.clone(), public: !p.private, ty: p.ty.clone() };
            inputs.push(input);
            i += 1;
        }
        let mut outputs: Vec<ConcreteType> = Vec::new();
        let m = entry.outputs.len();
        let mut j: usize = 0;
        while j < m
            invariant
                j <= m,
                m == entry.outputs@.len(),
                outputs@.len() == j,
                forall|k: int| 0 <= k < j ==> outputs@[k].model() == entry.outputs@[k].model(),
            decreases m - j,
        {
            let ty = entry.outputs[j].clone();
            outputs.push(ty);
            j += 1;
        }
        let res = Abi { inputs, outputs };
        proof {
            lemma_input_models_pointwise(res.inputs@);
            lemma_type_models_pointwise(res.outputs@);
            lemma_type_models_pointwise(entry.outputs@);
            lemma_parameter_models_pointwise(entry.parameters@);
            assert(res.model().inputs =~= derived_abi(entry.model()).inputs);
            assert(res.model().outputs =~= derived_abi(entry.model()).outputs);
            assert(res.model() =~= derived_abi(entry.model()));
        }
        res
    }
}

impl ConcreteSignature {
    /// The value this signature denotes in the mathematical model.
    pub open spec fn model(self) -> SignatureModel {
        SignatureModel { inputs: type_models(self.inputs@), outputs: type_models(self.outputs@) }
    }

    /// An empty signature, to be filled by the builder methods.
    pub fn new() -> (res: Self)
        ensures
            res.inputs@.len() == 0,
            res.outputs@.len() == 0,
    {
        ConcreteSignature { inputs: Vec::new(), outputs: Vec::new() }
    }

    /// The same signature with the given input types.
    pub fn inputs(self, inputs: Vec<ConcreteType>) -> (res: Self)
        ensures
            res.inputs == inputs,
            res.outputs == self.outputs,
    {
        ConcreteSignature { inputs, outputs: self.outputs }
    }

    /// The same signature with the given output types.
    pub fn outputs(self, outputs: Vec<ConcreteType>) -> (res: Self)
        ensures
            res.inputs == self.inputs,
            res.outputs == outputs,
    {
        ConcreteSignature { inputs: self.inputs, outputs }
    }
}

impl EntryFunction {
    /// The value this entry function denotes in the mathematical model.
    pub open spec fn model(self) -> EntryModel {
        EntryModel {
            parameters: parameter_models(self.parameters@),
            outputs: type_models(self.outputs@),
        }
    }
}

/// The signature an ABI projects to: its input types in order, and its
/// outputs unchanged.
pub open spec fn signature_of(a: AbiModel) -> SignatureModel {
    SignatureModel { inputs: a.inputs.map(|_k: int, x: InputModel| x.ty), outputs: a.outputs }
}

/// The ABI derived from an entry function: one input per parameter, public
/// when the parameter is not private, and the outputs unchanged.
pub open spec fn derived_abi(e: EntryModel) -> AbiModel {
    AbiModel {
        inputs: e.parameters.map(
            |_k: int, p: ParameterModel|
                InputModel { name: p.name, public: !p.private, ty: p.ty },
        ),
        outputs: e.outputs,
    }
}

/// Whether every input type of a model input sequence fits.
pub open spec fn fits_inputs(s: Seq<InputModel>) -> bool
    decreases s,
{
    s.len() == 0 || (fits_ty(s[0].ty) && fits_inputs(s.drop_first()))
}

/// Whether every type of a model type sequence fits.
pub open spec fn fits_types(s: Seq<TypeModel>) -> bool
    decreases s,
{
    s.len() == 0 || (fits_ty(s[0]) && fits_types(s.drop_first()))
}

/// Whether an ABI model value can be represented by an `Abi`: every array
/// length in it fits in `usize`.
pub open spec fn fits_abi(a: AbiModel) -> bool {
    fits_inputs(a.inputs) && fits_types(a.outputs)
}

/// The model of every input sequence of `AbiInput` values fits.
proof fn lemma_inputs_fit(s: Seq<AbiInput>)
    ensures
        fits_inputs(input_models(s)),
    decreases s,
{
    if s.len() > 0 {
        lemma_model_fits(s[0].ty);
        lemma_inputs_fit(s.drop_first());
        assert(input_models(s)[0] == s[0].model());
        assert(input_models(s).drop_first() =~= input_models(s.drop_first()));
    }
}

/// The model of every type sequence of `ConcreteType` values fits.
proof fn lemma_outputs_fit(s: Seq<ConcreteType>)
    ensures
        fits_types(type_models(s)),
    decreases s,
{
    if s.len() > 0 {
        lemma_model_fits(s[0]);
        lemma_outputs_fit(s.drop_first());
        assert(type_models(s)[0] == s[0].model());
        assert(type_models(s).drop_first() =~= type_models(s.drop_first()));
    }
}

/// The model of every `Abi` value fits, so `Abi::decode` is guaranteed to
/// accept what `Abi::encode` produced for it.
pub proof fn lemma_abi_model_fits(a: Abi)
    ensures
        fits_abi(a.model()),
{
    lemma_inputs_fit(a.inputs@);
    lemma_outputs_fit(a.outputs@);
}

/// Derivation determinism: the ABI derived from an entry-function
/// representation is a function of that representation alone; deriving
/// twice from the same representation yields identical documents.
pub proof fn lemma_derivation_deterministic(e: EntryModel, a1: AbiModel, a2: AbiModel)
    requires
        a1 == derived_abi(e),
        a2 == derived_abi(e),
    ensures
        a1 == a2,
{
}

/// Signature projection: the projected signature has one input type per ABI
/// input, in order, and carries the ABI's outputs unchanged.
pub proof fn lemma_signature_projection(a: AbiModel)
    ensures
        signature_of(a).inputs.len() == a.inputs.len(),
        forall|k: int| 0 <= k < a.inputs.len() ==> signature_of(a).inputs[k] == a.inputs[k].ty,
        signature_of(a).outputs == a.outputs,
{
}

} // verus!
