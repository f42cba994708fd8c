//! The type schema: the closed set of structural types a program input or
//! output may have, together with its mathematical model.

use vstd::prelude::*;

verus! {

/// A structural type: the shape of one program input or output.
///
/// The set is closed: every consumer matches exhaustively over exactly these
/// four kinds.
#[derive(Debug, PartialEq, Eq)]
pub enum ConcreteType {
    /// A single arithmetic-field value.
    FieldElement,
    /// A single boolean value.
    Boolean,
    /// A fixed-length homogeneous sequence.
    Array(ConcreteArrayType),
    /// A named record with ordered, named members.
    Struct(ConcreteStructType),
}

/// A fixed-length homogeneous array type.
#[derive(Debug, PartialEq, Eq)]
pub struct ConcreteArrayType {
    /// The element type.
    pub ty: Box<ConcreteType>,
    /// The fixed length.
    pub size: usize,
}

/// A struct type: a display name and an ordered sequence of members.
///
/// Member order is semantically significant; member names are not required
/// to be unique.
#[derive(Debug, PartialEq, Eq)]
pub struct ConcreteStructType {
    /// The display label of the struct.
    pub name: String,
    /// The ordered members.
    pub members: Vec<ConcreteStructMember>,
}

/// One named member of a struct type.
#[derive(Debug, PartialEq, Eq)]
pub struct ConcreteStructMember {
    /// The member's name.
    pub name: String,
    /// The member's type.
    pub ty: ConcreteType,
}

/// The mathematical model of a structural type: names as character
/// sequences, lengths as unbounded naturals.
#[verifier::ext_equal]
pub enum TypeModel {
    Field,
    Bool,
    Array(Box<TypeModel>, nat),
    Struct(Seq<char>, Seq<MemberModel>),
}

/// The mathematical model of one struct member.
#[verifier::ext_equal]
pub struct MemberModel {
    pub name: Seq<char>,
    pub ty: TypeModel,
}

impl ConcreteType {
    /// The value this type denotes in the mathematical model.
    pub open spec fn model(self) -> TypeModel
        decreases self,
    {
        match self {
            ConcreteType::FieldElement => TypeModel::Field,
            ConcreteType::Boolean => TypeModel::Bool,
            ConcreteType::Array(a) => TypeModel::Array(Box::new((*a.ty).model()), a.size as nat),
            ConcreteType::Struct(s) => TypeModel::Struct(s.name@, members_model(s.members@)),
        }
    }
}

impl ConcreteStructMember {
    /// The value this member denotes in the mathematical model.
    pub open spec fn model(self) -> MemberModel
        decreases self,
    {
        MemberModel { name: self.name@, ty: self.ty.model() }
    }
}

/// The model of an ordered sequence of struct members.
pub open spec fn members_model(ms: Seq<ConcreteStructMember>) -> Seq<MemberModel>
    decreases ms,
{
    if ms.len() == 0 {
        Seq::empty()
    } else {
        seq![ms[0].model()] + members_model(ms.drop_first())
    }
}

/// `members_model` maps each member to its model, preserving length and
/// order.
pub proof fn lemma_members_model_pointwise(ms: Seq<ConcreteStructMember>)
    ensures
        members_model(ms).len() == ms.len(),
        forall|k: int| 0 <= k < ms.len() ==> members_model(ms)[k] == ms[k].model(),
    decreases ms,
{
    if ms.len() > 0 {
        lemma_members_model_pointwise(ms.drop_first());
        assert forall|k: int| 0 <= k < ms.len() implies members_model(ms)[k] == ms[k].model() by {
            if k > 0 {
                assert(ms.drop_first()[k - 1] == ms[k]);
            }
        }
    }
}

/// Whether a model value can be represented by a `ConcreteType`: every array
/// length fits in `usize`.
pub open spec fn fits_ty(m: TypeModel) -> bool
    decreases m,
{
    match m {
        TypeModel::Field => true,
        TypeModel::Bool => true,
        TypeModel::Array(e, n) => n <= usize::MAX && fits_ty(*e),
        TypeModel::Struct(_name, ms) => fits_members(ms),
    }
}

/// Whether every member type of a model member sequence fits.
pub open spec fn fits_members(ms: Seq<MemberModel>) -> bool
    decreases ms,
{
    ms.len() == 0 || (fits_ty(ms[0].ty) && fits_members(ms.drop_first()))
}

/// The model of every `ConcreteType` value fits.
pub proof fn lemma_model_fits(t: ConcreteType)
    ensures
        fits_ty(t.model()),
    decreases t,
{
    match t {
        ConcreteType::FieldElement => {},
        ConcreteType::Boolean => {},
        ConcreteType::Array(a) => {
            lemma_model_fits(*a.ty);
        },
        ConcreteType::Struct(s) => {
            lemma_model_fits_members(s.members@);
        },
    }
}

/// The model of every member sequence of `ConcreteStructMember` values fits.
pub proof fn lemma_model_fits_members(ms: Seq<ConcreteStructMember>)
    ensures
        fits_members(members_model(ms)),
    decreases ms,
{
    if ms.len() > 0 {
        lemma_model_fits(ms[0].ty);
        lemma_model_fits_members(ms.drop_first());
        assert(members_model(ms)[0] == ms[0].model());
        assert(members_model(ms).drop_first() =~= members_model(ms.drop_first()));
    }
}

impl Clone for ConcreteType {
    /// A deep copy denoting the same model value.
    fn clone(&self) -> (res: Self)
        ensures
            res.model() == self.model(),
        decreases *self,
    {
        match self {
            ConcreteType::FieldElement => ConcreteType::FieldElement,
            ConcreteType::Boolean => ConcreteType::Boolean,
            ConcreteType::Array(a) => ConcreteType::Array(a.clone()),
            ConcreteType::Struct(s) => ConcreteType::Struct(s.clone()),
        }
    }
}

impl Clone for ConcreteArrayType {
    /// A deep copy denoting the same model value.
    fn clone(&self) -> (res: Self)
        ensures
            res.model() == self.model(),
        decreases *self,
    {
        ConcreteArrayType { ty: Box::new((*self.ty).clone()), size: self.size }
    }
}

impl Clone for ConcreteStructMember {
    /// A deep copy denoting the same model value.
    fn clone(&self) -> (res: Self)
        ensures
            res.model() == self.model(),
        decreases *self,
    {
        ConcreteStructMember { name: clone_string(&self.name), ty: self.ty.clone() }
    }
}

impl Clone for ConcreteStructType {
    /// A deep copy denoting the same model value.
    fn clone(&self) -> (res: Self)
        ensures
            res.model() == self.model(),
        decreases *self,
    {
        let mut members: Vec<ConcreteStructMember> = Vec::new();
        let n = self.members.len();
        let mut i: usize = 0;
        while i < n
            invariant
                i <= n,
                n == self.members@.len(),
                members@.len() == i,
                forall|k: int| 0 <= k < i ==> members@[k].model() == self.members@[k].model(),
            decreases n - i,
        {
            let m = self.members[i].clone();
            members.push(m);
            i += 1;
        }
        proof {
            lemma_members_model_pointwise(self.members@);
            lemma_members_model_pointwise(members@);
            assert(members_model(members@) =~= members_model(self.members@));
        }
        ConcreteStructType { name: clone_string(&self.name), members }
    }
}

impl ConcreteArrayType {
    /// The value this array type denotes in the mathematical model.
    pub open spec fn model(self) -> TypeModel {
        TypeModel::Array(Box::new((*self.ty).model()), self.size as nat)
    }

    /// Builds the array type with the given element type and length.
    pub fn new(ty: ConcreteType, size: usize) -> (res: Self)
        ensures
            *res.ty == ty,
            res.size == size,
    {
        ConcreteArrayType { ty: Box::new(ty), size }
    }
}

impl ConcreteStructType {
    /// The value this struct type denotes in the mathematical model.
    pub open spec fn model(self) -> TypeModel {
        TypeModel::Struct(self.name@, members_model(self.members@))
    }

    /// Builds the struct type with the given display name and members.
    pub fn new(name: String, members: Vec<ConcreteStructMember>) -> (res: Self)
        ensures
            res.name == name,
            res.members == members,
    {
        ConcreteStructType { name, members }
    }
}

impl ConcreteStructMember {
    /// Builds the member with the given name and type.
    pub fn new(name: String, ty: ConcreteType) -> (res: Self)
        ensures
            res.name == name,
            res.ty == ty,
    {
        ConcreteStructMember { name, ty }
    }
}

/// A copy of a `String` with the same characters.
fn clone_string(s: &String) -> (res: String)
    ensures
        res@ == s@,
{
    s.clone()
}

} // verus!
