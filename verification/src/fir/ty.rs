//! The type universe's ids, reserved rows and small per-type attributes:
//! primitive kinds, qualifier sets and the per-type flag bits.

use vstd::prelude::*;

use crate::fir::cons::{fold_mix, spec_key_words, widen, ConsTable};
use crate::fir::constval::ConstValue;
use crate::fir::defpath::{DeclKeyId, HeadKey};
use crate::fir::pool::{Interns, Pool};
use crate::fir::sig::Conv;
use crate::index::{spec_splitmix64, DefId, Symbol};

verus! {

/// One interned type row.
#[derive(Clone, Copy, PartialEq, Eq, Structural, PartialOrd, Ord, Hash, Debug)]
pub struct TyId(pub u32);

/// One interned argument list.
#[derive(Clone, Copy, PartialEq, Eq, Structural, PartialOrd, Ord, Hash, Debug)]
pub struct ArgsId(pub u32);

/// One interned trait reference.
#[derive(Clone, Copy, PartialEq, Eq, Structural, PartialOrd, Ord, Hash, Debug)]
pub struct TraitRefId(pub u32);

/// One interned projection key.
#[derive(Clone, Copy, PartialEq, Eq, Structural, PartialOrd, Ord, Hash, Debug)]
pub struct ProjKeyId(pub u32);

/// One interned function type.
#[derive(Clone, Copy, PartialEq, Eq, Structural, PartialOrd, Ord, Hash, Debug)]
pub struct FnTyId(pub u32);

/// One interned brand.
#[derive(Clone, Copy, PartialEq, Eq, Structural, PartialOrd, Ord, Hash, Debug)]
pub struct BrandId(pub u32);

/// One interned comptime constant.
#[derive(Clone, Copy, PartialEq, Eq, Structural, PartialOrd, Ord, Hash, Debug)]
pub struct ConstId(pub u32);

impl TyId {
    pub fn index(self) -> (r: usize)
        ensures
            r == self.0,
    {
        self.0 as usize
    }
}

impl TraitRefId {
    pub fn index(self) -> (r: usize)
        ensures
            r == self.0,
    {
        self.0 as usize
    }
}

impl FnTyId {
    pub fn index(self) -> (r: usize)
        ensures
            r == self.0,
    {
        self.0 as usize
    }
}

/// The poisoned type: one row, so a recovered error never multiplies.
pub fn ty_error() -> (r: TyId)
    ensures
        r == TyId(0),
{
    TyId(0)
}

/// The unit type's reserved row.
pub fn ty_unit() -> (r: TyId)
    ensures
        r == TyId(1),
{
    TyId(1)
}

/// The never type's reserved row.
pub fn ty_never() -> (r: TyId)
    ensures
        r == TyId(2),
{
    TyId(2)
}

/// The empty argument list, interned first so its id is always 0.
pub fn no_args() -> (r: ArgsId)
    ensures
        r == ArgsId(0),
{
    ArgsId(0)
}

/// The absent constant.
pub fn no_const() -> (r: ConstId)
    ensures
        r == ConstId(0xFFFF_FFFFu32),
{
    ConstId(0xFFFF_FFFFu32)
}

/// "Absent" for every column that is optionally a type.
pub fn no_ty() -> (r: TyId)
    ensures
        r == TyId(0xFFFF_FFFFu32),
{
    TyId(0xFFFF_FFFFu32)
}

/// What a type row is; its `a`/`b` columns are read according to it.
#[derive(Clone, Copy, PartialEq, Eq, Structural, Debug)]
pub enum TyTag {
    Error,
    Unit,
    Never,
    Prim,
    Nominal,
    Tuple,
    Fn,
    Dyn,
    Param,
    Proj,
    Brand,
    ConstVal,
}

/// The complete list of primitive types.
#[derive(Clone, Copy, PartialEq, Eq, Structural, PartialOrd, Ord, Hash, Debug)]
pub enum PrimKind {
    I8,
    I16,
    I32,
    I64,
    Isize,
    U8,
    U16,
    U32,
    U64,
    Usize,
    F32,
    F64,
    Bool,
    Str,
    RawPtr,
}

impl PrimKind {
    /// The kind's byte in declaration order (`I8` is 0, `RawPtr` is 14).
    pub open spec fn code(self) -> u8 {
        match self {
            PrimKind::I8 => 0,
            PrimKind::I16 => 1,
            PrimKind::I32 => 2,
            PrimKind::I64 => 3,
            PrimKind::Isize => 4,
            PrimKind::U8 => 5,
            PrimKind::U16 => 6,
            PrimKind::U32 => 7,
            PrimKind::U64 => 8,
            PrimKind::Usize => 9,
            PrimKind::F32 => 10,
            PrimKind::F64 => 11,
            PrimKind::Bool => 12,
            PrimKind::Str => 13,
            PrimKind::RawPtr => 14,
        }
    }

    pub fn to_u8(self) -> (r: u8)
        ensures
            r == self.code(),
    {
        match self {
            PrimKind::I8 => 0,
            PrimKind::I16 => 1,
            PrimKind::I32 => 2,
            PrimKind::I64 => 3,
            PrimKind::Isize => 4,
            PrimKind::U8 => 5,
            PrimKind::U16 => 6,
            PrimKind::U32 => 7,
            PrimKind::U64 => 8,
            PrimKind::Usize => 9,
            PrimKind::F32 => 10,
            PrimKind::F64 => 11,
            PrimKind::Bool => 12,
            PrimKind::Str => 13,
            PrimKind::RawPtr => 14,
        }
    }

    /// The ten integer kinds are exactly the first ten codes.
    pub fn is_integer(self) -> (r: bool)
        ensures
            r == (self.code() < 10),
    {
        match self {
            PrimKind::I8 | PrimKind::I16 | PrimKind::I32 | PrimKind::I64 | PrimKind::Isize
            | PrimKind::U8 | PrimKind::U16 | PrimKind::U32 | PrimKind::U64 | PrimKind::Usize => true,
            _ => false,
        }
    }

    pub fn is_float(self) -> (r: bool)
        ensures
            r == (self == PrimKind::F32 || self == PrimKind::F64),
    {
        match self {
            PrimKind::F32 | PrimKind::F64 => true,
            _ => false,
        }
    }

    pub fn from_u8(v: u8) -> (r: Option<PrimKind>)
        ensures
            r is Some <==> v < 15,
            r matches Some(k) ==> k.code() == v,
    {
        match v {
            0 => Some(PrimKind::I8),
            1 => Some(PrimKind::I16),
            2 => Some(PrimKind::I32),
            3 => Some(PrimKind::I64),
            4 => Some(PrimKind::Isize),
            5 => Some(PrimKind::U8),
            6 => Some(PrimKind::U16),
            7 => Some(PrimKind::U32),
            8 => Some(PrimKind::U64),
            9 => Some(PrimKind::Usize),
            10 => Some(PrimKind::F32),
            11 => Some(PrimKind::F64),
            12 => Some(PrimKind::Bool),
            13 => Some(PrimKind::Str),
            14 => Some(PrimKind::RawPtr),
            _ => None,
        }
    }
}

/// Decoding a primitive's code gives the primitive back.
pub proof fn lemma_prim_code_round_trip(k: PrimKind)
    ensures
        k.code() < 15,
        forall|j: PrimKind| j.code() == k.code() ==> j == k,
{
}

pub const Q_ISO: u8 = 1;
pub const Q_IMM: u8 = 2;
pub const Q_SECRET: u8 = 4;

/// The qualifier set of a type. `iso` and `imm` are mutually exclusive;
/// `secret` is orthogonal to both.
#[derive(Clone, Copy, PartialEq, Eq, Structural, PartialOrd, Ord, Hash, Debug, Default)]
pub struct Quals(pub u8);

impl Quals {
    pub fn is_iso(self) -> (r: bool)
        ensures
            r == (self.0 & Q_ISO != 0),
    {
        self.0 & Q_ISO != 0
    }

    pub fn is_imm(self) -> (r: bool)
        ensures
            r == (self.0 & Q_IMM != 0),
    {
        self.0 & Q_IMM != 0
    }

    pub fn is_secret(self) -> (r: bool)
        ensures
            r == (self.0 & Q_SECRET != 0),
    {
        self.0 & Q_SECRET != 0
    }

    pub fn is_none(self) -> (r: bool)
        ensures
            r == (self.0 == 0),
    {
        self.0 == 0
    }

    /// The union of two qualifier sets.
    pub fn union(self, other: Quals) -> (r: Quals)
        ensures
            r.0 == self.0 | other.0,
    {
        Quals(self.0 | other.0)
    }

    /// Whether this combination is well-formed (`iso imm` is not).
    pub fn is_consistent(self) -> (r: bool)
        ensures
            r == !((self.0 & Q_ISO != 0) && (self.0 & Q_IMM != 0)),
    {
        !(self.is_iso() && self.is_imm())
    }
}

/// A qualifier is in a union exactly when it is in one of the two sides.
pub proof fn lemma_quals_union_members(a: Quals, b: Quals)
    ensures
        ((a.0 | b.0) & Q_ISO != 0) == ((a.0 & Q_ISO != 0) || (b.0 & Q_ISO != 0)),
        ((a.0 | b.0) & Q_IMM != 0) == ((a.0 & Q_IMM != 0) || (b.0 & Q_IMM != 0)),
        ((a.0 | b.0) & Q_SECRET != 0) == ((a.0 & Q_SECRET != 0) || (b.0 & Q_SECRET != 0)),
{
    let x = a.0;
    let y = b.0;
    assert(((x | y) & 1u8 != 0) == ((x & 1u8 != 0) || (y & 1u8 != 0))) by (bit_vector);
    assert(((x | y) & 2u8 != 0) == ((x & 2u8 != 0) || (y & 2u8 != 0))) by (bit_vector);
    assert(((x | y) & 4u8 != 0) == ((x & 4u8 != 0) || (y & 4u8 != 0))) by (bit_vector);
}

pub const F_PARAM: u8 = 1;
pub const F_PROJ: u8 = 2;
pub const F_BRAND: u8 = 4;
pub const F_ERROR: u8 = 8;
pub const F_FRESH: u8 = 16;

/// Everything that makes a type non-monomorphic.
pub const F_OPEN: u8 = 7;

/// Where a brand comes from.
#[derive(Clone, Copy, PartialEq, Eq, Structural, Debug)]
pub enum BrandKind {
    /// A brand parameter of a declaration.
    Param,
    /// A brand created by a `with` block; never in a signature.
    Fresh,
}

impl TyTag {
    /// The tag's number in declaration order.
    pub open spec fn code(self) -> u8 {
        match self {
            TyTag::Error => 0,
            TyTag::Unit => 1,
            TyTag::Never => 2,
            TyTag::Prim => 3,
            TyTag::Nominal => 4,
            TyTag::Tuple => 5,
            TyTag::Fn => 6,
            TyTag::Dyn => 7,
            TyTag::Param => 8,
            TyTag::Proj => 9,
            TyTag::Brand => 10,
            TyTag::ConstVal => 11,
        }
    }

    pub fn to_u8(self) -> (r: u8)
        ensures
            r == self.code(),
    {
        match self {
            TyTag::Error => 0,
            TyTag::Unit => 1,
            TyTag::Never => 2,
            TyTag::Prim => 3,
            TyTag::Nominal => 4,
            TyTag::Tuple => 5,
            TyTag::Fn => 6,
            TyTag::Dyn => 7,
            TyTag::Param => 8,
            TyTag::Proj => 9,
            TyTag::Brand => 10,
            TyTag::ConstVal => 11,
        }
    }
}

impl Conv {
    pub fn to_u8(self) -> (r: u8)
        ensures
            r == self.code(),
    {
        match self {
            Conv::Let => 0,
            Conv::Inout => 1,
            Conv::Sink => 2,
            Conv::Out => 3,
        }
    }
}

impl BrandKind {
    pub open spec fn code(self) -> u32 {
        match self {
            BrandKind::Param => 0,
            BrandKind::Fresh => 1,
        }
    }
}

/// A brand row. Brands are phantom parameters: they participate only in
/// identity.
#[derive(Clone, Copy, PartialEq, Eq, Structural, Debug)]
pub enum BrandRow {
    Param { owner: DefId, ordinal: u16 },
    Fresh { owner: DeclKeyId, ordinal: u16 },
}

impl BrandRow {
    pub fn kind(self) -> (r: BrandKind)
        ensures
            r == (if self is Param {
                BrandKind::Param
            } else {
                BrandKind::Fresh
            }),
    {
        match self {
            BrandRow::Param { .. } => BrandKind::Param,
            BrandRow::Fresh { .. } => BrandKind::Fresh,
        }
    }
}

pub const SALT_ROW: u64 = 0x524f_5700_524f_5700u64;
pub const SALT_ARGS: u64 = 0x4152_4753_4152_4753u64;
pub const SALT_TR: u64 = 0x5452_4546_5452_4546u64;
pub const SALT_PK: u64 = 0x504b_4559_504b_4559u64;
pub const SALT_FN: u64 = 0x464e_5459_464e_5459u64;
pub const SALT_BRAND: u64 = 0x4252_4e44_4252_4e44u64;
pub const SALT_CONST: u64 = 0x434f_4e53_544f_4e53u64;

pub open spec fn spec_key3(salt: u64, a: u64, b: u64, c: u64) -> u64 {
    spec_splitmix64(spec_splitmix64(spec_splitmix64(salt ^ a) ^ b) ^ c)
}

// ---------------------------------------------------------------------------
// Pool rows
// ---------------------------------------------------------------------------

/// The identity of a type row: what interning compares.
#[derive(Clone, Copy, PartialEq, Eq, Structural, Debug)]
pub struct TyKey {
    pub tag: TyTag,
    pub a: u32,
    pub b: u32,
    pub quals: u8,
}

impl View for TyKey {
    type V = TyKey;

    open spec fn view(&self) -> TyKey {
        *self
    }
}

impl Interns for TyKey {
    open spec fn storable(v: TyKey) -> bool {
        true
    }

    open spec fn key_of(v: TyKey) -> u64 {
        spec_key3(SALT_ROW, (v.tag.code() * 256 + v.quals) as u64, v.a as u64, v.b as u64)
    }

    fn key(&self) -> (k: u64) {
        let t = self.tag.to_u8() as u64;
        let q = self.quals as u64;
        assert(((t << 8u64) | q) == t * 256 + q) by (bit_vector)
            requires
                t < 256,
                q < 256,
        ;
        ConsTable::key3(SALT_ROW, (t << 8u64) | q, self.a as u64, self.b as u64)
    }

    fn same(&self, other: &Self) -> (b: bool) {
        *self == *other
    }
}

/// An interned argument list.
pub struct ArgList(pub Vec<TyId>);

pub open spec fn ty_ids(xs: Seq<TyId>) -> Seq<u32> {
    xs.map_values(|t: TyId| t.0)
}

impl View for ArgList {
    type V = Seq<TyId>;

    open spec fn view(&self) -> Seq<TyId> {
        self.0@
    }
}

fn same_ids(a: &[TyId], b: &[TyId]) -> (r: bool)
    ensures
        r == (a@ == b@),
{
    if a.len() != b.len() {
        return false;
    }
    let mut i: usize = 0;
    while i < a.len()
        invariant
            i <= a@.len(),
            a@.len() == b@.len(),
            forall|j: int| 0 <= j < i ==> a@[j] == b@[j],
        decreases a@.len() - i,
    {
        if a[i] != b[i] {
            return false;
        }
        i = i + 1;
    }
    assert(a@ =~= b@);
    true
}

fn raw_ty_ids(xs: &[TyId]) -> (r: Vec<u32>)
    ensures
        r@ == ty_ids(xs@),
{
    let mut v: Vec<u32> = Vec::new();
    let mut i: usize = 0;
    while i < xs.len()
        invariant
            i <= xs@.len(),
            v@ == ty_ids(xs@.subrange(0, i as int)),
        decreases xs@.len() - i,
    {
        v.push(xs[i].0);
        i = i + 1;
        assert(v@ =~= ty_ids(xs@.subrange(0, i as int)));
    }
    assert(xs@.subrange(0, i as int) =~= xs@);
    v
}

impl Interns for ArgList {
    /// An argument list has at most `u16::MAX` entries.
    open spec fn storable(v: Seq<TyId>) -> bool {
        v.len() <= 0xFFFF
    }

    open spec fn key_of(v: Seq<TyId>) -> u64 {
        spec_key_words(SALT_ARGS, v.len() as u64, widen(ty_ids(v)))
    }

    fn key(&self) -> (k: u64) {
        let raw = raw_ty_ids(self.0.as_slice());
        ConsTable::key_slice(SALT_ARGS, raw.as_slice())
    }

    fn same(&self, other: &Self) -> (b: bool) {
        same_ids(self.0.as_slice(), other.0.as_slice())
    }
}

/// An interned trait reference: the trait and its arguments.
#[derive(Clone, Copy, PartialEq, Eq, Structural, Debug)]
pub struct TraitRefRow {
    pub def: DefId,
    pub args: ArgsId,
}

impl View for TraitRefRow {
    type V = TraitRefRow;

    open spec fn view(&self) -> TraitRefRow {
        *self
    }
}

impl Interns for TraitRefRow {
    open spec fn storable(v: TraitRefRow) -> bool {
        true
    }

    open spec fn key_of(v: TraitRefRow) -> u64 {
        spec_key3(SALT_TR, v.def.0 as u64, v.args.0 as u64, 0)
    }

    fn key(&self) -> (k: u64) {
        ConsTable::key3(SALT_TR, self.def.0 as u64, self.args.0 as u64, 0)
    }

    fn same(&self, other: &Self) -> (b: bool) {
        *self == *other
    }
}

/// An interned projection key: a trait reference and an associated name.
#[derive(Clone, Copy, PartialEq, Eq, Structural, Debug)]
pub struct ProjKeyRow {
    pub tr: TraitRefId,
    pub name: Symbol,
}

impl View for ProjKeyRow {
    type V = ProjKeyRow;

    open spec fn view(&self) -> ProjKeyRow {
        *self
    }
}

impl Interns for ProjKeyRow {
    open spec fn storable(v: ProjKeyRow) -> bool {
        true
    }

    open spec fn key_of(v: ProjKeyRow) -> u64 {
        spec_key3(SALT_PK, v.tr.0 as u64, v.name.0 as u64, 0)
    }

    fn key(&self) -> (k: u64) {
        ConsTable::key3(SALT_PK, self.tr.0 as u64, self.name.0 as u64, 0)
    }

    fn same(&self, other: &Self) -> (b: bool) {
        *self == *other
    }
}

impl View for BrandRow {
    type V = BrandRow;

    open spec fn view(&self) -> BrandRow {
        *self
    }
}

pub open spec fn brand_parts(v: BrandRow) -> (u64, u64, u64) {
    match v {
        BrandRow::Param { owner, ordinal } => (0, owner.0 as u64, ordinal as u64),
        BrandRow::Fresh { owner, ordinal } => (1, owner.0 as u64, ordinal as u64),
    }
}

impl Interns for BrandRow {
    open spec fn storable(v: BrandRow) -> bool {
        true
    }

    open spec fn key_of(v: BrandRow) -> u64 {
        spec_key3(SALT_BRAND, brand_parts(v).0, brand_parts(v).1, brand_parts(v).2)
    }

    fn key(&self) -> (k: u64) {
        let (k, owner, ordinal): (u64, u32, u16) = match *self {
            BrandRow::Param { owner, ordinal } => (0u64, owner.0, ordinal),
            BrandRow::Fresh { owner, ordinal } => (1u64, owner.0, ordinal),
        };
        ConsTable::key3(SALT_BRAND, k, owner as u64, ordinal as u64)
    }

    fn same(&self, other: &Self) -> (b: bool) {
        *self == *other
    }
}

impl View for ConstValue {
    type V = ConstValue;

    open spec fn view(&self) -> ConstValue {
        *self
    }
}

pub open spec fn const_payload(v: ConstValue) -> (u64, u128) {
    match v {
        ConstValue::I(n) => (0, n as u128),
        ConstValue::B(b) => (1, if b { 1u128 } else { 0u128 }),
        ConstValue::S(s) => (2, s.0 as u128),
    }
}

impl Interns for ConstValue {
    open spec fn storable(v: ConstValue) -> bool {
        true
    }

    open spec fn key_of(v: ConstValue) -> u64 {
        spec_key3(
            SALT_CONST,
            const_payload(v).0,
            const_payload(v).1 as u64,
            (const_payload(v).1 >> 64u128) as u64,
        )
    }

    fn key(&self) -> (k: u64) {
        let (k, payload): (u64, u128) = match *self {
            ConstValue::I(n) => (0u64, n as u128),
            ConstValue::B(b) => (1u64, if b { 1u128 } else { 0u128 }),
            ConstValue::S(s) => (2u64, s.0 as u128),
        };
        ConsTable::key3(SALT_CONST, k, payload as u64, (payload >> 64u128) as u64)
    }

    fn same(&self, other: &Self) -> (b: bool) {
        *self == *other
    }
}

/// A function type: per-parameter conventions and types, the result, the
/// `raises` type ([`no_ty`] when absent) and whether it is a closure type.
pub struct FnTyRow {
    pub conv: Vec<Conv>,
    pub ty: Vec<TyId>,
    pub result: TyId,
    pub raises: TyId,
    pub closure: bool,
}

/// A function type as plain values.
pub struct FnTyView {
    pub conv: Seq<Conv>,
    pub ty: Seq<TyId>,
    pub result: TyId,
    pub raises: TyId,
    pub closure: bool,
}

impl View for FnTyRow {
    type V = FnTyView;

    open spec fn view(&self) -> FnTyView {
        FnTyView {
            conv: self.conv@,
            ty: self.ty@,
            result: self.result,
            raises: self.raises,
            closure: self.closure,
        }
    }
}

/// The words a function type is keyed by: each parameter's convention and
/// type, then the result, the raises type and the closure bit.
pub open spec fn fn_words(conv: Seq<Conv>, ty: Seq<TyId>, k: int) -> Seq<u64>
    decreases k,
{
    if k <= 0 {
        Seq::empty()
    } else {
        fn_words(conv, ty, k - 1).push(conv[k - 1].code() as u64).push(ty[k - 1].0 as u64)
    }
}

pub open spec fn fn_key_words(v: FnTyView) -> Seq<u64> {
    fn_words(v.conv, v.ty, v.conv.len() as int).push(v.result.0 as u64).push(
        v.raises.0 as u64,
    ).push(if v.closure { 1u64 } else { 0u64 })
}

impl Interns for FnTyRow {
    /// One type per convention, and at most 255 parameters.
    open spec fn storable(v: FnTyView) -> bool {
        v.conv.len() == v.ty.len() && v.conv.len() <= 255
    }

    open spec fn key_of(v: FnTyView) -> u64 {
        spec_key_words(SALT_FN, (v.conv.len() * 2 + 3) as u64, fn_key_words(v))
    }

    fn key(&self) -> (k: u64) {
        let mut words: Vec<u64> = Vec::new();
        let mut i: usize = 0;
        let n = self.conv.len();
        while i < n
            invariant
                i <= n,
                n == self.conv@.len(),
                n == self.ty@.len(),
                n <= 255,
                words@ == fn_words(self.conv@, self.ty@, i as int),
            decreases n - i,
        {
            words.push(self.conv[i].to_u8() as u64);
            words.push(self.ty[i].0 as u64);
            i = i + 1;
        }
        words.push(self.result.0 as u64);
        words.push(self.raises.0 as u64);
        words.push(if self.closure { 1u64 } else { 0u64 });
        ConsTable::key_iter(SALT_FN, n * 2 + 3, words.as_slice())
    }

    fn same(&self, other: &Self) -> (b: bool) {
        if self.conv.len() != other.conv.len() || self.ty.len() != other.ty.len() {
            return false;
        }
        let mut i: usize = 0;
        while i < self.conv.len()
            invariant
                i <= self.conv@.len(),
                self.conv@.len() == other.conv@.len(),
                forall|j: int| 0 <= j < i ==> self.conv@[j] == other.conv@[j],
            decreases self.conv@.len() - i,
        {
            if self.conv[i] != other.conv[i] {
                return false;
            }
            i = i + 1;
        }
        assert(self.conv@ =~= other.conv@);
        same_ids(self.ty.as_slice(), other.ty.as_slice()) && self.result == other.result
            && self.raises == other.raises && self.closure == other.closure
    }
}

// ---------------------------------------------------------------------------
// The function-type pool
// ---------------------------------------------------------------------------

/// The interned function types.
pub struct FnTys {
    pool: Pool<FnTyRow>,
}

impl FnTys {
    /// The function types, in id order.
    pub closed spec fn fns(&self) -> Seq<FnTyView> {
        self.pool.rows()
    }

    pub closed spec fn wf(&self) -> bool {
        self.pool.wf()
    }

    pub fn len(&self) -> (r: usize)
        ensures
            r == self.fns().len(),
    {
        self.pool.len()
    }

    pub fn is_empty(&self) -> (r: bool)
        ensures
            r == (self.fns().len() == 0),
    {
        self.pool.len() == 0
    }

    /// The conventions and the types of a function type's parameters.
    pub fn params(&self, id: FnTyId) -> (r: (&[Conv], &[TyId]))
        requires
            self.wf(),
            id.0 < self.fns().len(),
        ensures
            r.0@ == self.fns()[id.0 as int].conv,
            r.1@ == self.fns()[id.0 as int].ty,
    {
        let row = self.pool.get(id.index());
        (row.conv.as_slice(), row.ty.as_slice())
    }

    pub fn result(&self, id: FnTyId) -> (r: TyId)
        requires
            id.0 < self.fns().len(),
        ensures
            r == self.fns()[id.0 as int].result,
    {
        self.pool.get(id.index()).result
    }

    pub fn raises(&self, id: FnTyId) -> (r: TyId)
        requires
            id.0 < self.fns().len(),
        ensures
            r == self.fns()[id.0 as int].raises,
    {
        self.pool.get(id.index()).raises
    }

    pub fn is_closure(&self, id: FnTyId) -> (r: bool)
        requires
            id.0 < self.fns().len(),
        ensures
            r == self.fns()[id.0 as int].closure,
    {
        self.pool.get(id.index()).closure
    }
}

// ---------------------------------------------------------------------------
// The type store's model
// ---------------------------------------------------------------------------

/// The pools a type row's children live in.
pub struct TyUniverse {
    pub rows: Seq<TyKey>,
    pub flags: Seq<u8>,
    pub unqual: Seq<TyId>,
    pub args: Seq<Seq<TyId>>,
    pub trait_refs: Seq<TraitRefRow>,
    pub proj_keys: Seq<ProjKeyRow>,
    pub fns: Seq<FnTyView>,
    pub brands: Seq<BrandRow>,
}

/// `w` holds everything `u` holds, at the same ids.
pub open spec fn extends(u: TyUniverse, w: TyUniverse) -> bool {
    &&& u.rows.len() <= w.rows.len() && w.rows.subrange(0, u.rows.len() as int) == u.rows
    &&& u.flags.len() <= w.flags.len() && w.flags.subrange(0, u.flags.len() as int) == u.flags
    &&& u.unqual.len() <= w.unqual.len() && w.unqual.subrange(0, u.unqual.len() as int) == u.unqual
    &&& u.args.len() <= w.args.len() && w.args.subrange(0, u.args.len() as int) == u.args
    &&& u.trait_refs.len() <= w.trait_refs.len() && w.trait_refs.subrange(
        0,
        u.trait_refs.len() as int,
    ) == u.trait_refs
    &&& u.proj_keys.len() <= w.proj_keys.len() && w.proj_keys.subrange(
        0,
        u.proj_keys.len() as int,
    ) == u.proj_keys
    &&& u.fns.len() <= w.fns.len() && w.fns.subrange(0, u.fns.len() as int) == u.fns
    &&& u.brands.len() <= w.brands.len() && w.brands.subrange(0, u.brands.len() as int)
        == u.brands
}

/// Every id in `xs` is below `n`.
pub open spec fn ids_below(xs: Seq<TyId>, n: int) -> bool {
    forall|i: int| 0 <= i < xs.len() ==> (#[trigger] xs[i]).0 < n
}

/// Every id in `xs` names a type row.
pub open spec fn ids_ok(u: TyUniverse, xs: Seq<TyId>) -> bool {
    ids_below(xs, u.rows.len() as int)
}

/// The pool entries a row of this shape reads exist, and the types among
/// them are below `n`.
pub open spec fn children_below(u: TyUniverse, k: TyKey, n: int) -> bool {
    match k.tag {
        TyTag::Nominal | TyTag::Tuple => k.b < u.args.len() && ids_below(u.args[k.b as int], n),
        TyTag::Fn => k.a < u.fns.len() && ids_below(u.fns[k.a as int].ty, n)
            && u.fns[k.a as int].result.0 < n && (u.fns[k.a as int].raises == TyId(0xFFFF_FFFFu32)
            || u.fns[k.a as int].raises.0 < n),
        TyTag::Dyn => k.a < u.trait_refs.len() && u.trait_refs[k.a as int].args.0 < u.args.len()
            && ids_below(u.args[u.trait_refs[k.a as int].args.0 as int], n),
        TyTag::Proj => k.a < n && k.b < u.proj_keys.len() && u.proj_keys[k.b as int].tr.0
            < u.trait_refs.len() && u.trait_refs[u.proj_keys[k.b as int].tr.0 as int].args.0
            < u.args.len() && ids_below(
            u.args[u.trait_refs[u.proj_keys[k.b as int].tr.0 as int].args.0 as int],
            n,
        ),
        TyTag::Brand => k.b < u.brands.len(),
        TyTag::ConstVal => k.b < n,
        _ => true,
    }
}

/// The ids a row of this shape reads all name rows of their pools.
pub open spec fn children_ok(u: TyUniverse, k: TyKey) -> bool {
    &&& u.flags.len() == u.rows.len()
    &&& children_below(u, k, u.rows.len() as int)
}

/// The OR of the flags of the types in `xs`.
pub open spec fn or_flags(flags: Seq<u8>, xs: Seq<TyId>) -> u8
    decreases xs.len(),
{
    if xs.len() == 0 {
        0
    } else {
        or_flags(flags, xs.drop_last()) | flags[xs.last().0 as int]
    }
}

/// A new row's flags: the OR of its children's flags, plus its own bit.
pub open spec fn spec_child_flags(u: TyUniverse, k: TyKey) -> u8 {
    match k.tag {
        TyTag::Error => F_ERROR,
        TyTag::Unit | TyTag::Never | TyTag::Prim => 0,
        TyTag::Nominal | TyTag::Tuple => or_flags(u.flags, u.args[k.b as int]),
        TyTag::Fn => {
            let f = u.fns[k.a as int];
            let x = or_flags(u.flags, f.ty) | u.flags[f.result.0 as int];
            if f.raises != TyId(0xFFFF_FFFFu32) {
                x | u.flags[f.raises.0 as int]
            } else {
                x
            }
        },
        TyTag::Dyn => or_flags(u.flags, u.args[u.trait_refs[k.a as int].args.0 as int]),
        TyTag::Param => F_PARAM,
        TyTag::Proj => (F_PROJ | u.flags[k.a as int]) | or_flags(
            u.flags,
            u.args[u.trait_refs[u.proj_keys[k.b as int].tr.0 as int].args.0 as int],
        ),
        TyTag::Brand => if u.brands[k.b as int] is Fresh {
            F_BRAND | F_FRESH
        } else {
            F_BRAND
        },
        TyTag::ConstVal => u.flags[k.b as int],
    }
}

/// The same row with its qualifiers cleared.
pub open spec fn unqualified(k: TyKey) -> TyKey {
    TyKey { quals: 0, ..k }
}

/// `iso` and `imm` are mutually exclusive.
pub open spec fn quals_consistent(q: u8) -> bool {
    !((q & Q_ISO != 0) && (q & Q_IMM != 0))
}

/// A type parameter or a projection: the only legal heads of a projection.
pub open spec fn rigid_at(rows: Seq<TyKey>, a: u32) -> bool {
    a < rows.len() && (rows[a as int].tag == TyTag::Param || rows[a as int].tag == TyTag::Proj)
}

proof fn lemma_extends_refl(u: TyUniverse)
    ensures
        extends(u, u),
{
    assert(u.rows.subrange(0, u.rows.len() as int) =~= u.rows);
    assert(u.flags.subrange(0, u.flags.len() as int) =~= u.flags);
    assert(u.unqual.subrange(0, u.unqual.len() as int) =~= u.unqual);
    assert(u.args.subrange(0, u.args.len() as int) =~= u.args);
    assert(u.trait_refs.subrange(0, u.trait_refs.len() as int) =~= u.trait_refs);
    assert(u.proj_keys.subrange(0, u.proj_keys.len() as int) =~= u.proj_keys);
    assert(u.fns.subrange(0, u.fns.len() as int) =~= u.fns);
    assert(u.brands.subrange(0, u.brands.len() as int) =~= u.brands);
}

/// No qualifier at all is a consistent set of qualifiers.
pub proof fn lemma_no_quals_consistent()
    ensures
        quals_consistent(0u8),
{
    assert(!((0u8 & 1u8 != 0) && (0u8 & 2u8 != 0))) by (bit_vector);
}

proof fn lemma_extends_trans(u0: TyUniverse, u1: TyUniverse, u2: TyUniverse)
    requires
        extends(u0, u1),
        extends(u1, u2),
    ensures
        extends(u0, u2),
{
    assert(u2.rows.subrange(0, u0.rows.len() as int) =~= u1.rows.subrange(0, u0.rows.len() as int));
    assert(u2.flags.subrange(0, u0.flags.len() as int) =~= u1.flags.subrange(0, u0.flags.len() as int));
    assert(u2.unqual.subrange(0, u0.unqual.len() as int) =~= u1.unqual.subrange(0, u0.unqual.len() as int));
    assert(u2.args.subrange(0, u0.args.len() as int) =~= u1.args.subrange(0, u0.args.len() as int));
    assert(u2.trait_refs.subrange(0, u0.trait_refs.len() as int) =~= u1.trait_refs.subrange(0, u0.trait_refs.len() as int));
    assert(u2.proj_keys.subrange(0, u0.proj_keys.len() as int) =~= u1.proj_keys.subrange(0, u0.proj_keys.len() as int));
    assert(u2.fns.subrange(0, u0.fns.len() as int) =~= u1.fns.subrange(0, u0.fns.len() as int));
    assert(u2.brands.subrange(0, u0.brands.len() as int) =~= u1.brands.subrange(0, u0.brands.len() as int));
}

proof fn lemma_children_below_mono(u: TyUniverse, k: TyKey, n: int, m: int)
    requires
        children_below(u, k, n),
        n <= m,
    ensures
        children_below(u, k, m),
{
}

proof fn lemma_children_below_stable(u: TyUniverse, w: TyUniverse, k: TyKey, n: int)
    requires
        extends(u, w),
        children_below(u, k, n),
    ensures
        children_below(w, k, n),
{
    match k.tag {
        TyTag::Nominal | TyTag::Tuple => {
            assert(w.args[k.b as int] == w.args.subrange(0, u.args.len() as int)[k.b as int]);
        },
        TyTag::Fn => {
            assert(w.fns[k.a as int] == w.fns.subrange(0, u.fns.len() as int)[k.a as int]);
        },
        TyTag::Dyn => {
            assert(w.trait_refs[k.a as int] == w.trait_refs.subrange(0, u.trait_refs.len() as int)[k.a as int]);
            let t = u.trait_refs[k.a as int];
            assert(w.args[t.args.0 as int] == w.args.subrange(0, u.args.len() as int)[t.args.0 as int]);
        },
        TyTag::Proj => {
            assert(w.proj_keys[k.b as int] == w.proj_keys.subrange(0, u.proj_keys.len() as int)[k.b as int]);
            let pk = u.proj_keys[k.b as int];
            assert(w.trait_refs[pk.tr.0 as int] == w.trait_refs.subrange(0, u.trait_refs.len() as int)[pk.tr.0 as int]);
            let t = u.trait_refs[pk.tr.0 as int];
            assert(w.args[t.args.0 as int] == w.args.subrange(0, u.args.len() as int)[t.args.0 as int]);
        },
        TyTag::Brand => {
            assert(w.brands[k.b as int] == w.brands.subrange(0, u.brands.len() as int)[k.b as int]);
        },
        _ => {},
    }
}

proof fn lemma_or_flags_stable(f1: Seq<u8>, f2: Seq<u8>, xs: Seq<TyId>)
    requires
        f1.len() <= f2.len(),
        f2.subrange(0, f1.len() as int) == f1,
        forall|i: int| 0 <= i < xs.len() ==> (#[trigger] xs[i]).0 < f1.len(),
    ensures
        or_flags(f1, xs) == or_flags(f2, xs),
    decreases xs.len(),
{
    if xs.len() > 0 {
        lemma_or_flags_stable(f1, f2, xs.drop_last());
        assert(xs.last() == xs[xs.len() - 1]);
        assert(f2[xs.last().0 as int] == f2.subrange(0, f1.len() as int)[xs.last().0 as int]);
    }
}

/// What a row's children say about it does not change as the pools grow.
proof fn lemma_children_stable(u: TyUniverse, w: TyUniverse, k: TyKey)
    requires
        extends(u, w),
        children_ok(u, k),
        w.flags.len() == w.rows.len(),
    ensures
        children_ok(w, k),
        spec_child_flags(u, k) == spec_child_flags(w, k),
        forall|n: int| children_below(u, k, n) ==> #[trigger] children_below(w, k, n),
{
    match k.tag {
        TyTag::Nominal | TyTag::Tuple => {
            assert(w.args[k.b as int] == w.args.subrange(0, u.args.len() as int)[k.b as int]);
            lemma_or_flags_stable(u.flags, w.flags, u.args[k.b as int]);
        },
        TyTag::Fn => {
            assert(w.fns[k.a as int] == w.fns.subrange(0, u.fns.len() as int)[k.a as int]);
            let f = u.fns[k.a as int];
            lemma_or_flags_stable(u.flags, w.flags, f.ty);
            assert(w.flags[f.result.0 as int] == w.flags.subrange(0, u.flags.len() as int)[f.result.0 as int]);
            if f.raises != TyId(0xFFFF_FFFFu32) {
                assert(w.flags[f.raises.0 as int] == w.flags.subrange(0, u.flags.len() as int)[f.raises.0 as int]);
            }
        },
        TyTag::Dyn => {
            assert(w.trait_refs[k.a as int] == w.trait_refs.subrange(0, u.trait_refs.len() as int)[k.a as int]);
            let t = u.trait_refs[k.a as int];
            assert(w.args[t.args.0 as int] == w.args.subrange(0, u.args.len() as int)[t.args.0 as int]);
            lemma_or_flags_stable(u.flags, w.flags, u.args[t.args.0 as int]);
        },
        TyTag::Proj => {
            assert(w.proj_keys[k.b as int] == w.proj_keys.subrange(0, u.proj_keys.len() as int)[k.b as int]);
            let pk = u.proj_keys[k.b as int];
            assert(w.trait_refs[pk.tr.0 as int] == w.trait_refs.subrange(0, u.trait_refs.len() as int)[pk.tr.0 as int]);
            let t = u.trait_refs[pk.tr.0 as int];
            assert(w.args[t.args.0 as int] == w.args.subrange(0, u.args.len() as int)[t.args.0 as int]);
            lemma_or_flags_stable(u.flags, w.flags, u.args[t.args.0 as int]);
            assert(w.flags[k.a as int] == w.flags.subrange(0, u.flags.len() as int)[k.a as int]);
        },
        TyTag::Brand => {
            assert(w.brands[k.b as int] == w.brands.subrange(0, u.brands.len() as int)[k.b as int]);
        },
        TyTag::ConstVal => {
            assert(w.flags[k.b as int] == w.flags.subrange(0, u.flags.len() as int)[k.b as int]);
        },
        _ => {},
    }
}

// ---------------------------------------------------------------------------
// The type store
// ---------------------------------------------------------------------------

/// Every type row, hash-consed: two equal `(tag, a, b, quals)` rows are one
/// `TyId`, so type equality is one integer comparison. `flags` is the OR of
/// the children's flags and `unqual` the same row without qualifiers, both
/// filled in the same step as interning.
pub struct TyStore {
    rows: Pool<TyKey>,
    flags: Vec<u8>,
    unqual: Vec<TyId>,
    copyable: Vec<u8>,
    args: Pool<ArgList>,
    trait_refs: Pool<TraitRefRow>,
    proj_keys: Pool<ProjKeyRow>,
    fn_tys: FnTys,
    brands: Pool<BrandRow>,
    consts: Pool<ConstValue>,
}

/// Room for `k` more entries in a pool of `n`.
pub open spec fn room(n: nat, k: nat) -> bool {
    n + k < u32::MAX && n + k < usize::MAX / 64
}

impl TyStore {
    pub closed spec fn spec_rows(&self) -> Seq<TyKey> {
        self.rows.rows()
    }

    pub closed spec fn spec_flags(&self) -> Seq<u8> {
        self.flags@
    }

    pub closed spec fn spec_unqual(&self) -> Seq<TyId> {
        self.unqual@
    }

    pub closed spec fn spec_copyable(&self) -> Seq<u8> {
        self.copyable@
    }

    pub closed spec fn spec_args(&self) -> Seq<Seq<TyId>> {
        self.args.rows()
    }

    pub closed spec fn spec_trait_refs(&self) -> Seq<TraitRefRow> {
        self.trait_refs.rows()
    }

    pub closed spec fn spec_proj_keys(&self) -> Seq<ProjKeyRow> {
        self.proj_keys.rows()
    }

    pub closed spec fn spec_fns(&self) -> Seq<FnTyView> {
        self.fn_tys.fns()
    }

    pub closed spec fn spec_brands(&self) -> Seq<BrandRow> {
        self.brands.rows()
    }

    pub closed spec fn spec_consts(&self) -> Seq<ConstValue> {
        self.consts.rows()
    }

    pub open spec fn universe(&self) -> TyUniverse {
        TyUniverse {
            rows: self.spec_rows(),
            flags: self.spec_flags(),
            unqual: self.spec_unqual(),
            args: self.spec_args(),
            trait_refs: self.spec_trait_refs(),
            proj_keys: self.spec_proj_keys(),
            fns: self.spec_fns(),
            brands: self.spec_brands(),
        }
    }

    /// The store's invariant, without the reserved rows.
    pub closed spec fn wf_core(&self) -> bool {
        let n = self.spec_rows().len();
        &&& self.rows.wf()
        &&& self.args.wf()
        &&& self.trait_refs.wf()
        &&& self.proj_keys.wf()
        &&& self.fn_tys.wf()
        &&& self.brands.wf()
        &&& self.consts.wf()
        &&& self.flags@.len() == n
        &&& self.unqual@.len() == n
        &&& self.copyable@.len() == n
        &&& forall|i: int|
            0 <= i < n ==> children_ok(self.universe(), #[trigger] self.spec_rows()[i])
                && self.flags@[i] == spec_child_flags(self.universe(), self.spec_rows()[i])
        &&& forall|i: int|
            0 <= i < n ==> (#[trigger] self.unqual@[i]).0 < n && self.spec_rows()[self.unqual@[i].0 as int]
                == unqualified(self.spec_rows()[i])
        &&& forall|i: int| 0 <= i < n ==> #[trigger] self.copyable@[i] <= 2
        &&& forall|i: int| 0 <= i < n ==> quals_consistent(#[trigger] self.spec_rows()[i].quals)
        &&& self.wf_order()
        &&& forall|i: int|
            0 <= i < n && (#[trigger] self.spec_rows()[i]).tag == TyTag::Proj ==> rigid_at(
                self.spec_rows(),
                self.spec_rows()[i].a,
            )
    }

    /// Every row's children, and its qualifier-free row, come before it.
    #[verifier::opaque]
    pub closed spec fn wf_order(&self) -> bool {
        forall|i: int|
            0 <= i < self.spec_rows().len() ==> children_below(self.universe(), #[trigger] self.spec_rows()[i], i)
                && self.unqual@[i].0 <= i
    }

    /// The empty argument list and the error, unit and never types hold
    /// their reserved ids.
    pub open spec fn reserved(&self) -> bool {
        &&& self.spec_rows().len() >= 3
        &&& self.spec_rows()[0] == TyKey { tag: TyTag::Error, a: 0, b: 0, quals: 0 }
        &&& self.spec_rows()[1] == TyKey { tag: TyTag::Unit, a: 0, b: 0, quals: 0 }
        &&& self.spec_rows()[2] == TyKey { tag: TyTag::Never, a: 0, b: 0, quals: 0 }
        &&& self.spec_args().len() >= 1
        &&& self.spec_args()[0] == Seq::<TyId>::empty()
    }

    pub open spec fn wf(&self) -> bool {
        self.wf_core() && self.reserved()
    }

    /// Room for `k` more entries in every pool.
    pub open spec fn has_room_for(&self, k: nat) -> bool {
        &&& room(self.spec_rows().len(), k)
        &&& room(self.spec_args().len(), k)
        &&& room(self.spec_trait_refs().len(), k)
        &&& room(self.spec_proj_keys().len(), k)
        &&& room(self.spec_fns().len(), k)
        &&& room(self.spec_brands().len(), k)
        &&& room(self.spec_consts().len(), k)
    }

    /// Room for a few more entries in every pool.
    pub open spec fn has_room(&self) -> bool {
        self.has_room_for(4)
    }

    /// `new` holds what `old` held, at the same ids, with the same flags,
    /// qualifier-free rows and copyability answers; the constants pool too.
    pub open spec fn grows(old: &TyStore, new: &TyStore) -> bool {
        &&& extends(old.universe(), new.universe())
        &&& old.spec_unqual().len() <= new.spec_unqual().len()
        &&& new.spec_unqual().subrange(0, old.spec_unqual().len() as int) == old.spec_unqual()
        &&& old.spec_copyable().len() <= new.spec_copyable().len()
        &&& new.spec_copyable().subrange(0, old.spec_copyable().len() as int)
            == old.spec_copyable()
        &&& old.spec_consts().len() <= new.spec_consts().len()
        &&& new.spec_consts().subrange(0, old.spec_consts().len() as int) == old.spec_consts()
    }

    /// No pool grew by more than `k` entries.
    pub open spec fn grew_at_most(old: &TyStore, new: &TyStore, k: nat) -> bool {
        &&& new.spec_rows().len() <= old.spec_rows().len() + k
        &&& new.spec_args().len() <= old.spec_args().len() + k
        &&& new.spec_trait_refs().len() <= old.spec_trait_refs().len() + k
        &&& new.spec_proj_keys().len() <= old.spec_proj_keys().len() + k
        &&& new.spec_fns().len() <= old.spec_fns().len() + k
        &&& new.spec_brands().len() <= old.spec_brands().len() + k
        &&& new.spec_consts().len() <= old.spec_consts().len() + k
    }

    /// Only the type rows (and their columns) may have grown.
    pub open spec fn rows_only(old: &TyStore, new: &TyStore) -> bool {
        &&& new.spec_args() == old.spec_args()
        &&& new.spec_trait_refs() == old.spec_trait_refs()
        &&& new.spec_proj_keys() == old.spec_proj_keys()
        &&& new.spec_fns() == old.spec_fns()
        &&& new.spec_brands() == old.spec_brands()
        &&& new.spec_consts() == old.spec_consts()
    }

    pub fn len(&self) -> (r: usize)
        ensures
            r == self.spec_rows().len(),
    {
        self.rows.len()
    }

    pub fn is_empty(&self) -> (r: bool)
        ensures
            r == (self.spec_rows().len() == 0),
    {
        self.rows.len() == 0
    }

    /// The flags a row of this shape takes from its children.
    fn child_flags(&self, tag: TyTag, a: u32, b: u32) -> (r: u8)
        requires
            self.wf_core(),
            children_ok(self.universe(), TyKey { tag, a, b, quals: 0 }),
        ensures
            r == spec_child_flags(self.universe(), TyKey { tag, a, b, quals: 0 }),
    {
        match tag {
            TyTag::Error => F_ERROR,
            TyTag::Unit | TyTag::Never | TyTag::Prim => 0,
            TyTag::Nominal | TyTag::Tuple => self.or_args(b),
            TyTag::Fn => {
                let row = self.fn_tys.pool.get(a as usize);
                let mut f = self.or_ids(row.ty.as_slice());
                f = f | self.flags[row.result.0 as usize];
                if row.raises != TyId(0xFFFF_FFFFu32) {
                    f = f | self.flags[row.raises.0 as usize];
                }
                f
            },
            TyTag::Dyn => {
                let tr = *self.trait_refs.get(a as usize);
                self.or_args(tr.args.0)
            },
            TyTag::Param => F_PARAM,
            TyTag::Proj => {
                let mut f = F_PROJ | self.flags[a as usize];
                let pk = *self.proj_keys.get(b as usize);
                let tr = *self.trait_refs.get(pk.tr.0 as usize);
                f = f | self.or_args(tr.args.0);
                f
            },
            TyTag::Brand => {
                let mut f = F_BRAND;
                match self.brands.get(b as usize).kind() {
                    BrandKind::Fresh => {
                        f = f | F_FRESH;
                    },
                    BrandKind::Param => {},
                }
                f
            },
            TyTag::ConstVal => self.flags[b as usize],
        }
    }

    fn or_ids(&self, xs: &[TyId]) -> (r: u8)
        requires
            self.wf_core(),
            ids_ok(self.universe(), xs@),
        ensures
            r == or_flags(self.spec_flags(), xs@),
    {
        let mut f: u8 = 0;
        let mut i: usize = 0;
        while i < xs.len()
            invariant
                i <= xs@.len(),
                self.wf_core(),
                ids_ok(self.universe(), xs@),
                f == or_flags(self.spec_flags(), xs@.subrange(0, i as int)),
            decreases xs@.len() - i,
        {
            assert(xs@.subrange(0, i + 1).drop_last() =~= xs@.subrange(0, i as int));
            f = f | self.flags[xs[i].0 as usize];
            i = i + 1;
        }
        assert(xs@.subrange(0, i as int) =~= xs@);
        f
    }

    fn or_args(&self, id: u32) -> (r: u8)
        requires
            self.wf_core(),
            id < self.spec_args().len(),
            ids_ok(self.universe(), self.spec_args()[id as int]),
        ensures
            r == or_flags(self.spec_flags(), self.spec_args()[id as int]),
    {
        let list = self.args.get(id as usize);
        self.or_ids(list.0.as_slice())
    }

    /// The one way a type row comes into existence: the id of the row equal to
    /// `(tag, a, b, quals)`, or a new one whose flags are its children's and
    /// whose qualifier-free row is interned first.
    #[verifier::rlimit(60)]
    pub fn intern(&mut self, tag: TyTag, a: u32, b: u32, quals: Quals) -> (r: TyId)
        requires
            old(self).wf_core(),
            old(self).has_room(),
            children_ok(old(self).universe(), TyKey { tag, a, b, quals: 0 }),
            quals_consistent(quals.0),
            tag == TyTag::Proj ==> rigid_at(old(self).spec_rows(), a),
        ensures
            final(self).wf_core(),
            old(self).reserved() ==> final(self).reserved(),
            TyStore::grows(old(self), final(self)),
            TyStore::rows_only(old(self), final(self)),
            r.0 < final(self).spec_rows().len(),
            final(self).spec_rows()[r.0 as int] == (TyKey { tag, a, b, quals: quals.0 }),
            old(self).spec_rows().contains(TyKey { tag, a, b, quals: quals.0 })
                ==> final(self).spec_rows() == old(self).spec_rows(),
            !old(self).spec_rows().contains(TyKey { tag, a, b, quals: quals.0 })
                ==> final(self).spec_rows() == (if quals.0 != 0 && !old(self).spec_rows().contains(
                TyKey { tag, a, b, quals: 0 },
            ) {
                old(self).spec_rows().push(TyKey { tag, a, b, quals: 0 })
            } else {
                old(self).spec_rows()
            }).push(TyKey { tag, a, b, quals: quals.0 }),
        decreases (if quals.0 == 0 {
            0int
        } else {
            1int
        }),
    {
        let key = TyKey { tag, a, b, quals: quals.0 };
        match self.rows.find(&key) {
            Some(id) => {
                proof {
                    assert(self.spec_rows().contains(key));
                    assert(self.spec_rows().subrange(0, self.spec_rows().len() as int) =~= self.spec_rows());
                    assert(self.spec_flags().subrange(0, self.spec_flags().len() as int) =~= self.spec_flags());
                    assert(self.spec_args().subrange(0, self.spec_args().len() as int) =~= self.spec_args());
                    assert(self.spec_trait_refs().subrange(0, self.spec_trait_refs().len() as int) =~= self.spec_trait_refs());
                    assert(self.spec_proj_keys().subrange(0, self.spec_proj_keys().len() as int) =~= self.spec_proj_keys());
                    assert(self.spec_fns().subrange(0, self.spec_fns().len() as int) =~= self.spec_fns());
                    assert(self.spec_brands().subrange(0, self.spec_brands().len() as int) =~= self.spec_brands());
                    assert(self.spec_unqual().subrange(0, self.spec_unqual().len() as int) =~= self.spec_unqual());
                    assert(self.spec_copyable().subrange(0, self.spec_copyable().len() as int) =~= self.spec_copyable());
                    assert(self.spec_consts().subrange(0, self.spec_consts().len() as int) =~= self.spec_consts());
                }
                return TyId(id);
            },
            None => {},
        }
        let ghost s0 = *self;
        let cf = self.child_flags(tag, a, b);
        proof {
            lemma_no_quals_consistent();
            lemma_extends_refl(s0.universe());
        }
        let unq: Option<TyId> = if quals.0 == 0 {
            None
        } else {
            Some(self.intern(tag, a, b, Quals(0)))
        };
        let ghost s1 = *self;
        proof {
            lemma_children_stable(s0.universe(), s1.universe(), TyKey { tag, a, b, quals: 0 });
            assert(!s1.spec_rows().contains(key)) by {
                if s1.spec_rows().contains(key) {
                    let j = choose|j: int| 0 <= j < s1.spec_rows().len() && s1.spec_rows()[j] == key;
                    if j < s0.spec_rows().len() {
                        assert(s0.spec_rows()[j] == key);
                    }
                }
            }
        }
        let id = self.rows.len() as u32;
        self.rows.push_new(key);
        self.flags.push(cf);
        match unq {
            Some(u) => self.unqual.push(u),
            None => self.unqual.push(TyId(id)),
        }
        self.copyable.push(0);
        proof {
            let u1 = s1.universe();
            let u2 = self.universe();
            assert(self.spec_rows() == s1.spec_rows().push(key));
            assert(extends(u1, u2)) by {
                assert(u2.rows.subrange(0, u1.rows.len() as int) =~= u1.rows);
                assert(u2.flags.subrange(0, u1.flags.len() as int) =~= u1.flags);
                assert(u2.unqual.subrange(0, u1.unqual.len() as int) =~= u1.unqual);
                assert(u2.args =~= u1.args);
                assert(u2.args.subrange(0, u1.args.len() as int) =~= u1.args);
                assert(u2.trait_refs.subrange(0, u1.trait_refs.len() as int) =~= u1.trait_refs);
                assert(u2.proj_keys.subrange(0, u1.proj_keys.len() as int) =~= u1.proj_keys);
                assert(u2.fns.subrange(0, u1.fns.len() as int) =~= u1.fns);
                assert(u2.brands.subrange(0, u1.brands.len() as int) =~= u1.brands);
            }
            lemma_children_stable(u1, u2, key);
            let n = self.spec_rows().len();
            assert forall|i: int|
                0 <= i < n implies children_ok(self.universe(), #[trigger] self.spec_rows()[i])
                && self.flags@[i] == spec_child_flags(self.universe(), self.spec_rows()[i]) by {
                if i < n - 1 {
                    assert(self.spec_rows()[i] == s1.spec_rows()[i]);
                    assert(self.flags@[i] == s1.flags@[i]);
                    lemma_children_stable(u1, u2, s1.spec_rows()[i]);
                } else {
                    assert(self.spec_rows()[i] == key);
                }
            }
            assert forall|i: int|
                0 <= i < n implies (#[trigger] self.unqual@[i]).0 < n && self.spec_rows()[self.unqual@[i].0 as int]
                == unqualified(self.spec_rows()[i]) by {
                if i < n - 1 {
                    assert(self.unqual@[i] == s1.unqual@[i]);
                    assert(self.spec_rows()[i] == s1.spec_rows()[i]);
                    assert(self.spec_rows()[s1.unqual@[i].0 as int] == s1.spec_rows()[s1.unqual@[i].0 as int]);
                } else {
                    assert(self.spec_rows()[i] == key);
                    if quals.0 != 0 {
                        let uu = unq.unwrap();
                        assert(self.spec_rows()[uu.0 as int] == s1.spec_rows()[uu.0 as int]);
                    } else {
                        assert(unqualified(key) == key);
                    }
                }
            }
            assert forall|i: int| 0 <= i < n implies #[trigger] self.copyable@[i] <= 2 by {
                if i < n - 1 {
                    assert(self.copyable@[i] == s1.copyable@[i]);
                }
            }
            assert forall|i: int| 0 <= i < n implies quals_consistent(#[trigger] self.spec_rows()[i].quals) by {
                if i < n - 1 {
                    assert(self.spec_rows()[i] == s1.spec_rows()[i]);
                }
            }
            lemma_extends_trans(s0.universe(), u1, u2);
            assert(self.unqual@.subrange(0, s1.unqual@.len() as int) =~= s1.unqual@);
            TyStore::lemma_order_push(&s1, self, key, s0.spec_rows().len() as int);
            assert forall|i: int|
                0 <= i < n && (#[trigger] self.spec_rows()[i]).tag == TyTag::Proj implies rigid_at(
                self.spec_rows(),
                self.spec_rows()[i].a,
            ) by {
                if i < n - 1 {
                    assert(self.spec_rows()[i] == s1.spec_rows()[i]);
                    assert(self.spec_rows()[s1.spec_rows()[i].a as int] == s1.spec_rows()[s1.spec_rows()[i].a as int]);
                } else {
                    assert(self.spec_rows()[a as int] == s0.spec_rows()[a as int]);
                }
            }
            assert(self.spec_unqual().subrange(0, s1.spec_unqual().len() as int) =~= s1.spec_unqual());
            assert(self.spec_copyable().subrange(0, s1.spec_copyable().len() as int) =~= s1.spec_copyable());
            assert(self.spec_consts().subrange(0, s1.spec_consts().len() as int) =~= s1.spec_consts());
            if quals.0 == 0 {
                assert(s1 == s0);
                assert(!s0.spec_rows().contains(key));
            } else {
                assert(self.spec_unqual().subrange(0, s0.spec_unqual().len() as int) =~= s0.spec_unqual());
                assert(self.spec_copyable().subrange(0, s0.spec_copyable().len() as int) =~= s0.spec_copyable());
                assert(self.spec_consts().subrange(0, s0.spec_consts().len() as int) =~= s0.spec_consts());
                assert(self.spec_rows().subrange(0, s0.spec_rows().len() as int) =~= s0.spec_rows());
                assert(self.spec_flags().subrange(0, s0.spec_flags().len() as int) =~= s0.spec_flags());
            }
            if s0.reserved() {
                TyStore::lemma_reserved_grows(&s0, self);
            }
        }
        TyId(id)
    }
}

impl TyStore {
    /// The type rows and their columns did not change.
    pub open spec fn same_rows(old: &TyStore, new: &TyStore) -> bool {
        &&& new.spec_rows() == old.spec_rows()
        &&& new.spec_flags() == old.spec_flags()
        &&& new.spec_unqual() == old.spec_unqual()
        &&& new.spec_copyable() == old.spec_copyable()
    }

    proof fn lemma_pools_grew(s0: &TyStore, s1: &TyStore)
        requires
            s0.wf_core(),
            s1.rows == s0.rows,
            s1.flags == s0.flags,
            s1.unqual == s0.unqual,
            s1.copyable == s0.copyable,
            s1.args.wf(),
            s1.trait_refs.wf(),
            s1.proj_keys.wf(),
            s1.fn_tys.wf(),
            s1.brands.wf(),
            s1.consts.wf(),
            extends(s0.universe(), s1.universe()),
        ensures
            s1.wf_core(),
    {
        let n = s1.spec_rows().len();
        assert forall|i: int|
            0 <= i < n implies children_ok(s1.universe(), #[trigger] s1.spec_rows()[i])
            && s1.flags@[i] == spec_child_flags(s1.universe(), s1.spec_rows()[i]) by {
            lemma_children_stable(s0.universe(), s1.universe(), s0.spec_rows()[i]);
        }
        reveal(TyStore::wf_order);
        assert forall|i: int|
            0 <= i < n implies children_below(s1.universe(), #[trigger] s1.spec_rows()[i], i)
            && s1.unqual@[i].0 <= i by {
            lemma_children_below_stable(s0.universe(), s1.universe(), s0.spec_rows()[i], i);
        }
    }

    /// Appending a row whose children come before an earlier length keeps
    /// every row's children before it.
    proof fn lemma_order_push(s1: &TyStore, s2: &TyStore, k: TyKey, m: int)
        requires
            s1.wf_order(),
            extends(s1.universe(), s2.universe()),
            s2.spec_rows() == s1.spec_rows().push(k),
            s2.unqual@.len() == s1.unqual@.len() + 1,
            s1.unqual@.len() == s1.spec_rows().len(),
            s2.unqual@.subrange(0, s1.unqual@.len() as int) == s1.unqual@,
            s2.unqual@.last().0 <= s1.spec_rows().len(),
            m <= s1.spec_rows().len(),
            children_below(s1.universe(), k, m),
            s2.spec_flags().len() == s2.spec_rows().len(),
        ensures
            s2.wf_order(),
    {
        reveal(TyStore::wf_order);
        let n = s2.spec_rows().len();
        assert forall|i: int|
            0 <= i < n implies children_below(s2.universe(), #[trigger] s2.spec_rows()[i], i)
            && s2.unqual@[i].0 <= i by {
            if i < n - 1 {
                assert(s2.spec_rows()[i] == s1.spec_rows()[i]);
                assert(s2.unqual@[i] == s1.unqual@[i]);
                lemma_children_below_stable(s1.universe(), s2.universe(), s1.spec_rows()[i], i);
            } else {
                assert(s2.spec_rows()[i] == k);
                lemma_children_below_stable(s1.universe(), s2.universe(), k, m);
            }
        }
    }

    proof fn lemma_empty_store(s: &TyStore)
        requires
            s.rows.wf(),
            s.args.wf(),
            s.trait_refs.wf(),
            s.proj_keys.wf(),
            s.fn_tys.wf(),
            s.brands.wf(),
            s.consts.wf(),
            s.spec_rows().len() == 0,
            s.flags@.len() == 0,
            s.unqual@.len() == 0,
            s.copyable@.len() == 0,
        ensures
            s.wf_core(),
    {
        reveal(TyStore::wf_order);
    }

    proof fn lemma_reserved_grows(s0: &TyStore, s1: &TyStore)
        requires
            s0.reserved(),
            TyStore::grows(s0, s1),
        ensures
            s1.reserved(),
    {
        assert(s1.spec_rows()[0] == s1.spec_rows().subrange(0, s0.spec_rows().len() as int)[0]);
        assert(s1.spec_rows()[1] == s1.spec_rows().subrange(0, s0.spec_rows().len() as int)[1]);
        assert(s1.spec_rows()[2] == s1.spec_rows().subrange(0, s0.spec_rows().len() as int)[2]);
        assert(s1.spec_args()[0] == s1.spec_args().subrange(0, s0.spec_args().len() as int)[0]);
    }

    /// A store grows into itself.
    pub proof fn lemma_grows_refl(s: &TyStore)
        ensures
            TyStore::grows(s, s),
    {
        lemma_extends_refl(s.universe());
        assert(s.spec_unqual().subrange(0, s.spec_unqual().len() as int) =~= s.spec_unqual());
        assert(s.spec_copyable().subrange(0, s.spec_copyable().len() as int) =~= s.spec_copyable());
        assert(s.spec_consts().subrange(0, s.spec_consts().len() as int) =~= s.spec_consts());
    }

    /// The id of the argument list equal to `xs`, interning it if new.
    pub fn intern_args(&mut self, xs: &[TyId]) -> (r: ArgsId)
        requires
            old(self).wf_core(),
            old(self).has_room(),
            xs@.len() <= 0xFFFF,
        ensures
            final(self).wf_core(),
            old(self).reserved() ==> final(self).reserved(),
            TyStore::grows(old(self), final(self)),
            TyStore::same_rows(old(self), final(self)),
            r.0 < final(self).spec_args().len(),
            final(self).spec_args()[r.0 as int] == xs@,
            old(self).spec_args().contains(xs@) ==> final(self).spec_args() == old(self).spec_args(),
            !old(self).spec_args().contains(xs@) ==> final(self).spec_args() == old(
                self,
            ).spec_args().push(xs@),
            final(self).spec_trait_refs() == old(self).spec_trait_refs(),
            final(self).spec_proj_keys() == old(self).spec_proj_keys(),
            final(self).spec_fns() == old(self).spec_fns(),
            final(self).spec_brands() == old(self).spec_brands(),
            final(self).spec_consts() == old(self).spec_consts(),
            TyStore::grew_at_most(old(self), final(self), 1),
    {
        let ghost s0 = *self;
        let mut v: Vec<TyId> = Vec::new();
        let mut i: usize = 0;
        while i < xs.len()
            invariant
                i <= xs@.len(),
                v@ == xs@.subrange(0, i as int),
            decreases xs@.len() - i,
        {
            v.push(xs[i]);
            i = i + 1;
            assert(v@ =~= xs@.subrange(0, i as int));
        }
        assert(xs@.subrange(0, i as int) =~= xs@);
        let id = self.args.intern(ArgList(v));
        proof {
            let u0 = s0.universe();
            let u1 = self.universe();
            lemma_extends_refl(u0);
            assert(extends(u0, u1)) by {
                if !s0.spec_args().contains(xs@) {
                    assert(u1.args.subrange(0, u0.args.len() as int) =~= u0.args);
                }
            }
            TyStore::lemma_pools_grew(&s0, self);
            TyStore::lemma_grows_refl(&s0);
            assert(TyStore::grows(&s0, self));
            if s0.reserved() {
                TyStore::lemma_reserved_grows(&s0, self);
            }
        }
        ArgsId(id)
    }

    /// The id of the trait reference `trait_def[args]`, interning it if new.
    pub fn intern_trait_ref(&mut self, trait_def: DefId, args: ArgsId) -> (r: TraitRefId)
        requires
            old(self).wf_core(),
            old(self).has_room(),
        ensures
            final(self).wf_core(),
            old(self).reserved() ==> final(self).reserved(),
            TyStore::grows(old(self), final(self)),
            TyStore::same_rows(old(self), final(self)),
            r.0 < final(self).spec_trait_refs().len(),
            final(self).spec_trait_refs()[r.0 as int] == (TraitRefRow { def: trait_def, args }),
            old(self).spec_trait_refs().contains(TraitRefRow { def: trait_def, args })
                ==> final(self).spec_trait_refs() == old(self).spec_trait_refs(),
            !old(self).spec_trait_refs().contains(TraitRefRow { def: trait_def, args })
                ==> final(self).spec_trait_refs() == old(self).spec_trait_refs().push(
                TraitRefRow { def: trait_def, args },
            ),
            final(self).spec_args() == old(self).spec_args(),
            final(self).spec_proj_keys() == old(self).spec_proj_keys(),
            final(self).spec_fns() == old(self).spec_fns(),
            final(self).spec_brands() == old(self).spec_brands(),
            final(self).spec_consts() == old(self).spec_consts(),
            TyStore::grew_at_most(old(self), final(self), 1),
    {
        let ghost s0 = *self;
        let id = self.trait_refs.intern(TraitRefRow { def: trait_def, args });
        proof {
            let u0 = s0.universe();
            let u1 = self.universe();
            lemma_extends_refl(u0);
            assert(extends(u0, u1)) by {
                assert(u1.trait_refs.subrange(0, u0.trait_refs.len() as int) =~= u0.trait_refs);
            }
            TyStore::lemma_pools_grew(&s0, self);
            TyStore::lemma_grows_refl(&s0);
            if s0.reserved() {
                TyStore::lemma_reserved_grows(&s0, self);
            }
        }
        TraitRefId(id)
    }

    /// The id of the projection key `tr.name`, interning it if new.
    pub fn intern_proj_key(&mut self, tr: TraitRefId, name: Symbol) -> (r: ProjKeyId)
        requires
            old(self).wf_core(),
            old(self).has_room(),
        ensures
            final(self).wf_core(),
            old(self).reserved() ==> final(self).reserved(),
            TyStore::grows(old(self), final(self)),
            TyStore::same_rows(old(self), final(self)),
            r.0 < final(self).spec_proj_keys().len(),
            final(self).spec_proj_keys()[r.0 as int] == (ProjKeyRow { tr, name }),
            old(self).spec_proj_keys().contains(ProjKeyRow { tr, name })
                ==> final(self).spec_proj_keys() == old(self).spec_proj_keys(),
            !old(self).spec_proj_keys().contains(ProjKeyRow { tr, name })
                ==> final(self).spec_proj_keys() == old(self).spec_proj_keys().push(
                ProjKeyRow { tr, name },
            ),
            final(self).spec_args() == old(self).spec_args(),
            final(self).spec_trait_refs() == old(self).spec_trait_refs(),
            final(self).spec_fns() == old(self).spec_fns(),
            final(self).spec_brands() == old(self).spec_brands(),
            final(self).spec_consts() == old(self).spec_consts(),
            TyStore::grew_at_most(old(self), final(self), 1),
    {
        let ghost s0 = *self;
        let id = self.proj_keys.intern(ProjKeyRow { tr, name });
        proof {
            let u0 = s0.universe();
            let u1 = self.universe();
            lemma_extends_refl(u0);
            assert(extends(u0, u1)) by {
                assert(u1.proj_keys.subrange(0, u0.proj_keys.len() as int) =~= u0.proj_keys);
            }
            TyStore::lemma_pools_grew(&s0, self);
            TyStore::lemma_grows_refl(&s0);
            if s0.reserved() {
                TyStore::lemma_reserved_grows(&s0, self);
            }
        }
        ProjKeyId(id)
    }

    /// The id of the function type with these parameters, result, `raises`
    /// type and closure bit, interning it if new.
    pub fn intern_fn_ty(&mut self, params: &[(Conv, TyId)], result: TyId, raises: TyId, closure: bool) -> (r: FnTyId)
        requires
            old(self).wf_core(),
            old(self).has_room(),
            params@.len() <= 255,
        ensures
            final(self).wf_core(),
            old(self).reserved() ==> final(self).reserved(),
            TyStore::grows(old(self), final(self)),
            TyStore::same_rows(old(self), final(self)),
            r.0 < final(self).spec_fns().len(),
            final(self).spec_fns()[r.0 as int] == fn_view(params@, result, raises, closure),
            old(self).spec_fns().contains(fn_view(params@, result, raises, closure))
                ==> final(self).spec_fns() == old(self).spec_fns(),
            !old(self).spec_fns().contains(fn_view(params@, result, raises, closure))
                ==> final(self).spec_fns() == old(self).spec_fns().push(
                fn_view(params@, result, raises, closure),
            ),
            final(self).spec_args() == old(self).spec_args(),
            final(self).spec_trait_refs() == old(self).spec_trait_refs(),
            final(self).spec_proj_keys() == old(self).spec_proj_keys(),
            final(self).spec_brands() == old(self).spec_brands(),
            final(self).spec_consts() == old(self).spec_consts(),
    {
        let ghost s0 = *self;
        let mut conv: Vec<Conv> = Vec::new();
        let mut ty: Vec<TyId> = Vec::new();
        let mut i: usize = 0;
        while i < params.len()
            invariant
                i <= params@.len(),
                conv@ == params@.subrange(0, i as int).map_values(|p: (Conv, TyId)| p.0),
                ty@ == params@.subrange(0, i as int).map_values(|p: (Conv, TyId)| p.1),
            decreases params@.len() - i,
        {
            let (c, t) = params[i];
            conv.push(c);
            ty.push(t);
            i = i + 1;
            assert(conv@ =~= params@.subrange(0, i as int).map_values(|p: (Conv, TyId)| p.0));
            assert(ty@ =~= params@.subrange(0, i as int).map_values(|p: (Conv, TyId)| p.1));
        }
        assert(params@.subrange(0, i as int) =~= params@);
        let row = FnTyRow { conv, ty, result, raises, closure };
        assert(row@ == fn_view(params@, result, raises, closure));
        let id = self.fn_tys.pool.intern(row);
        proof {
            let u0 = s0.universe();
            let u1 = self.universe();
            lemma_extends_refl(u0);
            assert(extends(u0, u1)) by {
                assert(u1.fns.subrange(0, u0.fns.len() as int) =~= u0.fns);
            }
            TyStore::lemma_pools_grew(&s0, self);
            TyStore::lemma_grows_refl(&s0);
            if s0.reserved() {
                TyStore::lemma_reserved_grows(&s0, self);
            }
        }
        FnTyId(id)
    }

    /// The id of a brand row, interning it if new.
    pub fn intern_brand(&mut self, row: BrandRow) -> (r: BrandId)
        requires
            old(self).wf_core(),
            old(self).has_room(),
        ensures
            final(self).wf_core(),
            old(self).reserved() ==> final(self).reserved(),
            TyStore::grows(old(self), final(self)),
            TyStore::same_rows(old(self), final(self)),
            r.0 < final(self).spec_brands().len(),
            final(self).spec_brands()[r.0 as int] == row,
            old(self).spec_brands().contains(row) ==> final(self).spec_brands() == old(self).spec_brands(),
            !old(self).spec_brands().contains(row) ==> final(self).spec_brands() == old(
                self,
            ).spec_brands().push(row),
            final(self).spec_args() == old(self).spec_args(),
            final(self).spec_trait_refs() == old(self).spec_trait_refs(),
            final(self).spec_proj_keys() == old(self).spec_proj_keys(),
            final(self).spec_fns() == old(self).spec_fns(),
            final(self).spec_consts() == old(self).spec_consts(),
    {
        let ghost s0 = *self;
        let id = self.brands.intern(row);
        proof {
            let u0 = s0.universe();
            let u1 = self.universe();
            lemma_extends_refl(u0);
            assert(extends(u0, u1)) by {
                assert(u1.brands.subrange(0, u0.brands.len() as int) =~= u0.brands);
            }
            TyStore::lemma_pools_grew(&s0, self);
            TyStore::lemma_grows_refl(&s0);
            if s0.reserved() {
                TyStore::lemma_reserved_grows(&s0, self);
            }
        }
        BrandId(id)
    }

    /// The id of a comptime constant, interning it if new.
    pub fn intern_const(&mut self, v: ConstValue) -> (r: ConstId)
        requires
            old(self).wf_core(),
            old(self).has_room(),
        ensures
            final(self).wf_core(),
            old(self).reserved() ==> final(self).reserved(),
            TyStore::same_rows(old(self), final(self)),
            r.0 < final(self).spec_consts().len(),
            final(self).spec_consts()[r.0 as int] == v,
            old(self).spec_consts().contains(v) ==> final(self).spec_consts() == old(self).spec_consts(),
            !old(self).spec_consts().contains(v) ==> final(self).spec_consts() == old(
                self,
            ).spec_consts().push(v),
            final(self).spec_args() == old(self).spec_args(),
            final(self).spec_trait_refs() == old(self).spec_trait_refs(),
            final(self).spec_proj_keys() == old(self).spec_proj_keys(),
            final(self).spec_fns() == old(self).spec_fns(),
            final(self).spec_brands() == old(self).spec_brands(),
            TyStore::grows(old(self), final(self)),
    {
        let ghost s0 = *self;
        let id = self.consts.intern(v);
        proof {
            lemma_extends_refl(s0.universe());
            TyStore::lemma_pools_grew(&s0, self);
            TyStore::lemma_grows_refl(&s0);
            assert(self.spec_consts().subrange(0, s0.spec_consts().len() as int) =~= s0.spec_consts());
            if s0.reserved() {
                TyStore::lemma_reserved_grows(&s0, self);
            }
        }
        ConstId(id)
    }
}

/// A function type as plain values, from `(convention, type)` parameters.
pub open spec fn fn_view(params: Seq<(Conv, TyId)>, result: TyId, raises: TyId, closure: bool) -> FnTyView {
    FnTyView {
        conv: params.map_values(|p: (Conv, TyId)| p.0),
        ty: params.map_values(|p: (Conv, TyId)| p.1),
        result,
        raises,
        closure,
    }
}

impl TyStore {
    /// A store holding the empty argument list and then the error, unit and
    /// never types, in this fixed order, so those ids are the same in every
    /// store.
    pub fn new() -> (s: TyStore)
        ensures
            s.wf(),
            s.spec_rows().len() == 3,
            s.spec_args().len() == 1,
            s.spec_trait_refs().len() == 0,
            s.spec_proj_keys().len() == 0,
            s.spec_fns().len() == 0,
            s.spec_brands().len() == 0,
            s.spec_consts().len() == 0,
    {
        let mut s = TyStore {
            rows: Pool::new(),
            flags: Vec::new(),
            unqual: Vec::new(),
            copyable: Vec::new(),
            args: Pool::new(),
            trait_refs: Pool::new(),
            proj_keys: Pool::new(),
            fn_tys: FnTys { pool: Pool::new() },
            brands: Pool::new(),
            consts: Pool::new(),
        };
        proof {
            lemma_no_quals_consistent();
            TyStore::lemma_empty_store(&s);
        }
        let empty: Vec<TyId> = Vec::new();
        let e = s.intern_args(empty.as_slice());
        let err = s.intern(TyTag::Error, 0, 0, Quals(0));
        let unit = s.intern(TyTag::Unit, 0, 0, Quals(0));
        let never = s.intern(TyTag::Never, 0, 0, Quals(0));
        proof {
            assert(e.0 == 0);
            assert(s.spec_rows().len() == 3);
            assert(s.spec_rows()[0] == TyKey { tag: TyTag::Error, a: 0, b: 0, quals: 0 });
            assert(s.spec_rows()[1] == TyKey { tag: TyTag::Unit, a: 0, b: 0, quals: 0 });
            assert(s.spec_rows()[2] == TyKey { tag: TyTag::Never, a: 0, b: 0, quals: 0 });
            assert(err.0 == 0 && unit.0 == 1 && never.0 == 2);
        }
        s
    }

    // ------------------------------------------------------------- accessors

    pub fn tag(&self, t: TyId) -> (r: TyTag)
        requires
            self.wf_core(),
            t.0 < self.spec_rows().len(),
        ensures
            r == self.spec_rows()[t.0 as int].tag,
    {
        self.rows.get(t.index()).tag
    }

    pub fn a(&self, t: TyId) -> (r: u32)
        requires
            self.wf_core(),
            t.0 < self.spec_rows().len(),
        ensures
            r == self.spec_rows()[t.0 as int].a,
    {
        self.rows.get(t.index()).a
    }

    pub fn b(&self, t: TyId) -> (r: u32)
        requires
            self.wf_core(),
            t.0 < self.spec_rows().len(),
        ensures
            r == self.spec_rows()[t.0 as int].b,
    {
        self.rows.get(t.index()).b
    }

    pub fn quals(&self, t: TyId) -> (r: Quals)
        requires
            self.wf_core(),
            t.0 < self.spec_rows().len(),
        ensures
            r.0 == self.spec_rows()[t.0 as int].quals,
    {
        Quals(self.rows.get(t.index()).quals)
    }

    pub fn flags(&self, t: TyId) -> (r: u8)
        requires
            self.wf_core(),
            t.0 < self.spec_rows().len(),
        ensures
            r == self.spec_flags()[t.0 as int],
    {
        self.flags[t.index()]
    }

    /// The same row with the qualifiers cleared: one load, no interning.
    pub fn unqual(&self, t: TyId) -> (r: TyId)
        requires
            self.wf_core(),
            t.0 < self.spec_rows().len(),
        ensures
            r == self.spec_unqual()[t.0 as int],
            r.0 < self.spec_rows().len(),
            self.spec_rows()[r.0 as int] == unqualified(self.spec_rows()[t.0 as int]),
    {
        self.unqual[t.index()]
    }

    /// A type with no parameter, projection or brand anywhere inside it
    /// substitutes to itself.
    pub fn is_monomorphic(&self, t: TyId) -> (r: bool)
        requires
            self.wf_core(),
            t.0 < self.spec_rows().len(),
        ensures
            r == (self.spec_flags()[t.0 as int] & F_OPEN == 0),
    {
        self.flags[t.index()] & F_OPEN == 0
    }

    /// A type parameter or a projection: the only legal heads of a projection.
    pub fn is_rigid(&self, t: TyId) -> (r: bool)
        requires
            self.wf_core(),
            t.0 < self.spec_rows().len(),
        ensures
            r == rigid_at(self.spec_rows(), t.0),
    {
        match self.rows.get(t.index()).tag {
            TyTag::Param | TyTag::Proj => true,
            _ => false,
        }
    }

    pub fn is_error(&self, t: TyId) -> (r: bool)
        requires
            self.wf_core(),
            t.0 < self.spec_rows().len(),
        ensures
            r == (self.spec_flags()[t.0 as int] & F_ERROR != 0),
    {
        self.flags[t.index()] & F_ERROR != 0
    }

    /// The lazy copyability cache: 0 unknown, 1 yes, 2 no.
    pub fn copyable_cached(&self, t: TyId) -> (r: u8)
        requires
            self.wf_core(),
            t.0 < self.spec_rows().len(),
        ensures
            r == self.spec_copyable()[t.0 as int],
            r <= 2,
    {
        self.copyable[t.index()]
    }

    pub fn set_copyable(&mut self, t: TyId, answer: bool)
        requires
            old(self).wf_core(),
            t.0 < old(self).spec_rows().len(),
        ensures
            final(self).wf_core(),
            old(self).reserved() ==> final(self).reserved(),
            final(self).spec_copyable() == old(self).spec_copyable().update(
                t.0 as int,
                if answer {
                    1u8
                } else {
                    2u8
                },
            ),
            final(self).universe() == old(self).universe(),
            final(self).spec_unqual() == old(self).spec_unqual(),
            final(self).spec_consts() == old(self).spec_consts(),
    {
        let v: u8 = if answer {
            1
        } else {
            2
        };
        let ghost s0 = *self;
        self.copyable.set(t.index(), v);
        proof {
            reveal(TyStore::wf_order);
            assert(self.universe() == s0.universe());
        }
    }

    pub fn args(&self, id: ArgsId) -> (r: &[TyId])
        requires
            self.wf_core(),
            id.0 < self.spec_args().len(),
        ensures
            r@ == self.spec_args()[id.0 as int],
    {
        self.args.get(id.0 as usize).0.as_slice()
    }

    pub fn args_vec(&self, id: ArgsId) -> (r: Vec<TyId>)
        requires
            self.wf_core(),
            id.0 < self.spec_args().len(),
        ensures
            r@ == self.spec_args()[id.0 as int],
    {
        let xs = self.args(id);
        let mut v: Vec<TyId> = Vec::new();
        let mut i: usize = 0;
        while i < xs.len()
            invariant
                i <= xs@.len(),
                v@ == xs@.subrange(0, i as int),
            decreases xs@.len() - i,
        {
            v.push(xs[i]);
            i = i + 1;
            assert(v@ =~= xs@.subrange(0, i as int));
        }
        assert(xs@.subrange(0, i as int) =~= xs@);
        v
    }

    pub fn trait_ref(&self, id: TraitRefId) -> (r: (DefId, ArgsId))
        requires
            self.wf_core(),
            id.0 < self.spec_trait_refs().len(),
        ensures
            r.0 == self.spec_trait_refs()[id.0 as int].def,
            r.1 == self.spec_trait_refs()[id.0 as int].args,
    {
        let row = self.trait_refs.get(id.index());
        (row.def, row.args)
    }

    pub fn proj_key(&self, id: ProjKeyId) -> (r: (TraitRefId, Symbol))
        requires
            self.wf_core(),
            id.0 < self.spec_proj_keys().len(),
        ensures
            r.0 == self.spec_proj_keys()[id.0 as int].tr,
            r.1 == self.spec_proj_keys()[id.0 as int].name,
    {
        let row = self.proj_keys.get(id.0 as usize);
        (row.tr, row.name)
    }

    pub fn fn_tys(&self) -> (r: &FnTys)
        ensures
            r.fns() == self.spec_fns(),
            self.wf_core() ==> r.wf(),
    {
        &self.fn_tys
    }

    pub fn brand(&self, id: BrandId) -> (r: BrandRow)
        requires
            self.wf_core(),
            id.0 < self.spec_brands().len(),
        ensures
            r == self.spec_brands()[id.0 as int],
    {
        *self.brands.get(id.0 as usize)
    }

    pub fn const_value(&self, id: ConstId) -> (r: ConstValue)
        requires
            self.wf_core(),
            id.0 < self.spec_consts().len(),
        ensures
            r == self.spec_consts()[id.0 as int],
    {
        *self.consts.get(id.0 as usize)
    }

    /// The outermost constructor after stripping qualifiers: the first column
    /// of an impl bucket's key.
    pub fn head_key(&self, t: TyId) -> (r: HeadKey)
        requires
            self.wf_core(),
            t.0 < self.spec_rows().len(),
        ensures
            r == spec_head_key(self.universe(), self.spec_rows()[t.0 as int]),
    {
        let row = *self.rows.get(t.index());
        proof {
            assert(children_ok(self.universe(), self.spec_rows()[t.0 as int]));
        }
        match row.tag {
            TyTag::Error => HeadKey::Error,
            TyTag::Unit => HeadKey::Unit,
            TyTag::Never => HeadKey::Never,
            TyTag::Prim => {
                let k = match PrimKind::from_u8(row.a as u8) {
                    Some(k) => k,
                    None => PrimKind::RawPtr,
                };
                HeadKey::Prim(k)
            },
            TyTag::Nominal => HeadKey::Nominal(DefId(row.a)),
            TyTag::Tuple => HeadKey::Tuple(self.args.get(row.b as usize).0.len() as u16),
            TyTag::Fn => HeadKey::Fn,
            TyTag::Dyn => HeadKey::Dyn(self.trait_refs.get(row.a as usize).def),
            TyTag::Param => HeadKey::Param,
            TyTag::Proj => HeadKey::Proj,
            TyTag::Brand => HeadKey::Brand,
            TyTag::ConstVal => HeadKey::ConstVal,
        }
    }
}

/// A primitive's kind from its code, `RawPtr` for a code past the end.
pub open spec fn prim_of(code: u8) -> PrimKind {
    if exists|k: PrimKind| k.code() == code {
        choose|k: PrimKind| k.code() == code
    } else {
        PrimKind::RawPtr
    }
}

pub open spec fn spec_head_key(u: TyUniverse, k: TyKey) -> HeadKey {
    match k.tag {
        TyTag::Error => HeadKey::Error,
        TyTag::Unit => HeadKey::Unit,
        TyTag::Never => HeadKey::Never,
        TyTag::Prim => HeadKey::Prim(prim_of(k.a as u8)),
        TyTag::Nominal => HeadKey::Nominal(DefId(k.a)),
        TyTag::Tuple => HeadKey::Tuple(u.args[k.b as int].len() as u16),
        TyTag::Fn => HeadKey::Fn,
        TyTag::Dyn => HeadKey::Dyn(u.trait_refs[k.a as int].def),
        TyTag::Param => HeadKey::Param,
        TyTag::Proj => HeadKey::Proj,
        TyTag::Brand => HeadKey::Brand,
        TyTag::ConstVal => HeadKey::ConstVal,
    }
}

impl Default for TyStore {
    fn default() -> (s: TyStore)
        ensures
            s.wf(),
            s.spec_rows().len() == 3,
    {
        TyStore::new()
    }
}

/// A row with no qualifiers.
pub open spec fn plain(tag: TyTag, a: u32, b: u32) -> TyKey {
    TyKey { tag, a, b, quals: 0 }
}

impl TyStore {
    /// What every constructor below promises: the store is still well formed,
    /// holds what it held, and `r` names the row `k`.
    pub open spec fn made(old: &TyStore, new: &TyStore, r: TyId, k: TyKey) -> bool {
        &&& new.wf_core()
        &&& (old.reserved() ==> new.reserved())
        &&& TyStore::grows(old, new)
        &&& r.0 < new.spec_rows().len()
        &&& new.spec_rows()[r.0 as int] == k
    }

    pub fn prim(&mut self, k: PrimKind) -> (r: TyId)
        requires
            old(self).wf_core(),
            old(self).has_room(),
        ensures
            TyStore::made(old(self), final(self), r, plain(TyTag::Prim, k.code() as u32, 0)),
            TyStore::grew_at_most(old(self), final(self), 1),
    {
        proof {
            lemma_no_quals_consistent();
        }
        self.intern(TyTag::Prim, k.to_u8() as u32, 0, Quals(0))
    }

    pub fn nominal(&mut self, def: DefId, args: ArgsId) -> (r: TyId)
        requires
            old(self).wf_core(),
            old(self).has_room(),
            args.0 < old(self).spec_args().len(),
            ids_ok(old(self).universe(), old(self).spec_args()[args.0 as int]),
        ensures
            TyStore::made(old(self), final(self), r, plain(TyTag::Nominal, def.0, args.0)),
            TyStore::grew_at_most(old(self), final(self), 1),
    {
        proof {
            lemma_no_quals_consistent();
        }
        self.intern(TyTag::Nominal, def.0, args.0, Quals(0))
    }

    pub fn nominal_of(&mut self, def: DefId, args: &[TyId]) -> (r: TyId)
        requires
            old(self).wf_core(),
            old(self).has_room_for(8),
            args@.len() <= 0xFFFF,
            ids_ok(old(self).universe(), args@),
        ensures
            TyStore::made(old(self), final(self), r, plain(TyTag::Nominal, def.0, final(self).spec_rows()[r.0 as int].b)),
            final(self).spec_rows()[r.0 as int].b < final(self).spec_args().len(),
            final(self).spec_args()[final(self).spec_rows()[r.0 as int].b as int] == args@,
            TyStore::grew_at_most(old(self), final(self), 2),
    {
        let ghost s0 = *self;
        let a = self.intern_args(args);
        let ghost s1 = *self;
        let r = self.nominal(def, a);
        proof {
            lemma_grows_trans(&s0, &s1, self);
            assert(self.spec_args()[a.0 as int] == s1.spec_args()[a.0 as int]) by {
                assert(self.spec_args().subrange(0, s1.spec_args().len() as int) == s1.spec_args());
            }
        }
        r
    }

    pub fn tuple(&mut self, args: ArgsId) -> (r: TyId)
        requires
            old(self).wf_core(),
            old(self).has_room(),
            args.0 < old(self).spec_args().len(),
            old(self).spec_args()[args.0 as int].len() > 0,
            ids_ok(old(self).universe(), old(self).spec_args()[args.0 as int]),
        ensures
            TyStore::made(old(self), final(self), r, plain(TyTag::Tuple, 0, args.0)),
    {
        proof {
            lemma_no_quals_consistent();
        }
        self.intern(TyTag::Tuple, 0, args.0, Quals(0))
    }

    pub fn tuple_of(&mut self, args: &[TyId]) -> (r: TyId)
        requires
            old(self).wf_core(),
            old(self).has_room_for(8),
            0 < args@.len() <= 0xFFFF,
            ids_ok(old(self).universe(), args@),
        ensures
            TyStore::made(old(self), final(self), r, plain(TyTag::Tuple, 0, final(self).spec_rows()[r.0 as int].b)),
            final(self).spec_rows()[r.0 as int].b < final(self).spec_args().len(),
            final(self).spec_args()[final(self).spec_rows()[r.0 as int].b as int] == args@,
    {
        let ghost s0 = *self;
        let a = self.intern_args(args);
        let ghost s1 = *self;
        let r = self.tuple(a);
        proof {
            lemma_grows_trans(&s0, &s1, self);
            assert(self.spec_args()[a.0 as int] == s1.spec_args()[a.0 as int]) by {
                assert(self.spec_args().subrange(0, s1.spec_args().len() as int) == s1.spec_args());
            }
        }
        r
    }

    pub fn fn_ty(&mut self, id: FnTyId) -> (r: TyId)
        requires
            old(self).wf_core(),
            old(self).has_room(),
            children_ok(old(self).universe(), plain(TyTag::Fn, id.0, 0)),
        ensures
            TyStore::made(old(self), final(self), r, plain(TyTag::Fn, id.0, 0)),
    {
        proof {
            lemma_no_quals_consistent();
        }
        self.intern(TyTag::Fn, id.0, 0, Quals(0))
    }

    pub fn dyn_ty(&mut self, tr: TraitRefId) -> (r: TyId)
        requires
            old(self).wf_core(),
            old(self).has_room(),
            children_ok(old(self).universe(), plain(TyTag::Dyn, tr.0, 0)),
        ensures
            TyStore::made(old(self), final(self), r, plain(TyTag::Dyn, tr.0, 0)),
    {
        proof {
            lemma_no_quals_consistent();
        }
        self.intern(TyTag::Dyn, tr.0, 0, Quals(0))
    }

    pub fn param(&mut self, owner: DefId, ordinal: u16) -> (r: TyId)
        requires
            old(self).wf_core(),
            old(self).has_room(),
        ensures
            TyStore::made(old(self), final(self), r, plain(TyTag::Param, owner.0, ordinal as u32)),
            TyStore::grew_at_most(old(self), final(self), 1),
    {
        proof {
            lemma_no_quals_consistent();
        }
        self.intern(TyTag::Param, owner.0, ordinal as u32, Quals(0))
    }

    pub fn proj(&mut self, head: TyId, key: ProjKeyId) -> (r: TyId)
        requires
            old(self).wf_core(),
            old(self).has_room(),
            rigid_at(old(self).spec_rows(), head.0),
            children_ok(old(self).universe(), plain(TyTag::Proj, head.0, key.0)),
        ensures
            TyStore::made(old(self), final(self), r, plain(TyTag::Proj, head.0, key.0)),
            TyStore::grew_at_most(old(self), final(self), 1),
    {
        proof {
            lemma_no_quals_consistent();
        }
        self.intern(TyTag::Proj, head.0, key.0, Quals(0))
    }

    /// The projection `head.name` through the trait `trait_def[trait_args]`.
    pub fn proj_of(&mut self, head: TyId, trait_def: DefId, trait_args: &[TyId], name: Symbol) -> (r: TyId)
        requires
            old(self).wf_core(),
            old(self).has_room_for(8),
            rigid_at(old(self).spec_rows(), head.0),
            trait_args@.len() <= 0xFFFF,
            ids_ok(old(self).universe(), trait_args@),
        ensures
            TyStore::made(old(self), final(self), r, plain(TyTag::Proj, head.0, final(self).spec_rows()[r.0 as int].b)),
            TyStore::grew_at_most(old(self), final(self), 4),
    {
        let ghost s0 = *self;
        let a = self.intern_args(trait_args);
        let ghost s1 = *self;
        let tr = self.intern_trait_ref(trait_def, a);
        let ghost s2 = *self;
        let pk = self.intern_proj_key(tr, name);
        let ghost s3 = *self;
        proof {
            lemma_grows_trans(&s0, &s1, &s2);
            lemma_grows_trans(&s0, &s2, &s3);
            assert(s3.spec_args()[a.0 as int] == trait_args@);
            assert(s3.spec_trait_refs()[tr.0 as int] == (TraitRefRow { def: trait_def, args: a }));
            assert(s3.spec_rows() == s0.spec_rows());
            assert(ids_ok(s3.universe(), trait_args@));
        }
        let r = self.proj(head, pk);
        proof {
            lemma_grows_trans(&s0, &s3, self);
        }
        r
    }

    pub fn brand_ty(&mut self, row: BrandRow) -> (r: TyId)
        requires
            old(self).wf_core(),
            old(self).has_room_for(8),
        ensures
            TyStore::made(old(self), final(self), r, plain(TyTag::Brand, if row is Param { 0u32 } else { 1u32 }, final(self).spec_rows()[r.0 as int].b)),
            final(self).spec_rows()[r.0 as int].b < final(self).spec_brands().len(),
            final(self).spec_brands()[final(self).spec_rows()[r.0 as int].b as int] == row,
            TyStore::grew_at_most(old(self), final(self), 1),
    {
        let ghost s0 = *self;
        let kind = row.kind();
        let id = self.intern_brand(row);
        let ghost s1 = *self;
        proof {
            lemma_no_quals_consistent();
        }
        let code: u32 = match kind {
            BrandKind::Param => 0,
            BrandKind::Fresh => 1,
        };
        let r = self.intern(TyTag::Brand, code, id.0, Quals(0));
        proof {
            lemma_grows_trans(&s0, &s1, self);
        }
        r
    }

    pub fn const_ty(&mut self, v: ConstValue, ty: TyId) -> (r: TyId)
        requires
            old(self).wf_core(),
            old(self).has_room_for(8),
            ty.0 < old(self).spec_rows().len(),
        ensures
            TyStore::made(old(self), final(self), r, plain(TyTag::ConstVal, final(self).spec_rows()[r.0 as int].a, ty.0)),
            final(self).spec_rows()[r.0 as int].a < final(self).spec_consts().len(),
            final(self).spec_consts()[final(self).spec_rows()[r.0 as int].a as int] == v,
    {
        let ghost s0 = *self;
        let id = self.intern_const(v);
        let ghost s1 = *self;
        proof {
            lemma_no_quals_consistent();
        }
        let r = self.intern(TyTag::ConstVal, id.0, ty.0, Quals(0));
        proof {
            lemma_grows_trans(&s0, &s1, self);
            assert(self.spec_consts() == s1.spec_consts());
        }
        r
    }

    /// The same type carrying `quals` as well as its own qualifiers; the row
    /// itself when that adds nothing.
    pub fn qualified(&mut self, t: TyId, quals: Quals) -> (r: TyId)
        requires
            old(self).wf_core(),
            old(self).has_room(),
            t.0 < old(self).spec_rows().len(),
            quals_consistent(old(self).spec_rows()[t.0 as int].quals | quals.0),
        ensures
            TyStore::made(old(self), final(self), r, TyKey {
                quals: old(self).spec_rows()[t.0 as int].quals | quals.0,
                ..old(self).spec_rows()[t.0 as int]
            }),
            old(self).spec_rows()[t.0 as int].quals | quals.0 == old(self).spec_rows()[t.0 as int].quals
                ==> r == t && final(self).spec_rows() == old(self).spec_rows(),
    {
        let row = *self.rows.get(t.index());
        let merged = row.quals | quals.0;
        if merged == row.quals {
            proof {
                TyStore::lemma_grows_refl(self);
            }
            return t;
        }
        proof {
            assert(children_ok(self.universe(), self.spec_rows()[t.0 as int]));
            assert(children_ok(self.universe(), plain(row.tag, row.a, row.b)));
            if row.tag == TyTag::Proj {
                assert(rigid_at(self.spec_rows(), row.a));
            }
        }
        self.intern(row.tag, row.a, row.b, Quals(merged))
    }
}

/// Growth composes.
pub proof fn lemma_grows_trans(s0: &TyStore, s1: &TyStore, s2: &TyStore)
    requires
        TyStore::grows(s0, s1),
        TyStore::grows(s1, s2),
    ensures
        TyStore::grows(s0, s2),
{
    let (u0, u1, u2) = (s0.universe(), s1.universe(), s2.universe());
    assert(u2.rows.subrange(0, u0.rows.len() as int) =~= u1.rows.subrange(0, u0.rows.len() as int));
    assert(u2.flags.subrange(0, u0.flags.len() as int) =~= u1.flags.subrange(0, u0.flags.len() as int));
    assert(u2.unqual.subrange(0, u0.unqual.len() as int) =~= u1.unqual.subrange(0, u0.unqual.len() as int));
    assert(u2.args.subrange(0, u0.args.len() as int) =~= u1.args.subrange(0, u0.args.len() as int));
    assert(u2.trait_refs.subrange(0, u0.trait_refs.len() as int) =~= u1.trait_refs.subrange(0, u0.trait_refs.len() as int));
    assert(u2.proj_keys.subrange(0, u0.proj_keys.len() as int) =~= u1.proj_keys.subrange(0, u0.proj_keys.len() as int));
    assert(u2.fns.subrange(0, u0.fns.len() as int) =~= u1.fns.subrange(0, u0.fns.len() as int));
    assert(u2.brands.subrange(0, u0.brands.len() as int) =~= u1.brands.subrange(0, u0.brands.len() as int));
    assert(s2.spec_unqual().subrange(0, s0.spec_unqual().len() as int) =~= s1.spec_unqual().subrange(0, s0.spec_unqual().len() as int));
    assert(s2.spec_copyable().subrange(0, s0.spec_copyable().len() as int) =~= s1.spec_copyable().subrange(0, s0.spec_copyable().len() as int));
    assert(s2.spec_consts().subrange(0, s0.spec_consts().len() as int) =~= s1.spec_consts().subrange(0, s0.spec_consts().len() as int));
}

// ---------------------------------------------------------------------------
// Laws of the type store
// ---------------------------------------------------------------------------

/// Hash-consing: two ids of a store name equal rows only if they are the same
/// id, so type equality is id equality.
pub proof fn lemma_equal_rows_are_one_id(s: &TyStore, i: int, j: int)
    requires
        s.wf_core(),
        0 <= i < s.spec_rows().len(),
        0 <= j < s.spec_rows().len(),
        s.spec_rows()[i] == s.spec_rows()[j],
    ensures
        i == j,
{
    s.rows.lemma_unique(i, j);
}

/// Every row's flags are what its children give it, and its qualifier-free
/// row is the same row with the qualifiers cleared.
pub proof fn lemma_row_columns(s: &TyStore, t: int)
    requires
        s.wf_core(),
        0 <= t < s.spec_rows().len(),
    ensures
        children_ok(s.universe(), s.spec_rows()[t]),
        s.spec_flags()[t] == spec_child_flags(s.universe(), s.spec_rows()[t]),
        s.spec_unqual()[t].0 < s.spec_rows().len(),
        s.spec_rows()[s.spec_unqual()[t].0 as int] == unqualified(s.spec_rows()[t]),
{
}

/// A flag bit of any member of `xs` is a bit of their OR.
pub proof fn lemma_or_flags_covers(f: Seq<u8>, xs: Seq<TyId>, k: int, m: u8)
    requires
        0 <= k < xs.len(),
        f[xs[k].0 as int] & m != 0,
    ensures
        or_flags(f, xs) & m != 0,
    decreases xs.len(),
{
    let rest = or_flags(f, xs.drop_last());
    let last = f[xs.last().0 as int];
    if k == xs.len() - 1 {
        assert((rest | last) & m != 0) by (bit_vector)
            requires
                last & m != 0,
        ;
    } else {
        assert(xs.drop_last()[k] == xs[k]);
        lemma_or_flags_covers(f, xs.drop_last(), k, m);
        assert((rest | last) & m != 0) by (bit_vector)
            requires
                rest & m != 0,
        ;
    }
}

/// A flag bit of any argument of a nominal or tuple type is a flag bit of
/// the type: an error or a parameter anywhere inside propagates outward.
pub proof fn lemma_argument_flags_propagate(s: &TyStore, t: int, k: int, m: u8)
    requires
        s.wf_core(),
        0 <= t < s.spec_rows().len(),
        s.spec_rows()[t].tag == TyTag::Nominal || s.spec_rows()[t].tag == TyTag::Tuple,
        0 <= k < s.spec_args()[s.spec_rows()[t].b as int].len(),
        s.spec_flags()[s.spec_args()[s.spec_rows()[t].b as int][k].0 as int] & m != 0,
    ensures
        s.spec_flags()[t] & m != 0,
{
    lemma_row_columns(s, t);
    lemma_or_flags_covers(s.spec_flags(), s.spec_args()[s.spec_rows()[t].b as int], k, m);
}

impl TyStore {
    /// A row's children, and its qualifier-free row, come before it; an
    /// argument list holds at most `u16::MAX` types; a row's qualifiers are
    /// consistent.
    pub proof fn lemma_row_order(&self, t: int)
        requires
            self.wf_core(),
            0 <= t < self.spec_rows().len(),
        ensures
            children_below(self.universe(), self.spec_rows()[t], t),
            self.spec_unqual()[t].0 <= t,
            self.spec_rows()[t].quals != 0 ==> self.spec_unqual()[t].0 < t,
            self.spec_rows()[t].quals == 0 ==> self.spec_unqual()[t].0 == t,
            quals_consistent(self.spec_rows()[t].quals),
            children_ok(self.universe(), self.spec_rows()[t]),
            self.spec_rows()[t].tag == TyTag::Proj ==> rigid_at(self.spec_rows(), self.spec_rows()[t].a),
    {
        reveal(TyStore::wf_order);
        let u = self.spec_unqual()[t].0 as int;
        if self.spec_rows()[t].quals == 0 {
            self.rows.lemma_unique(u, t);
        } else {
            assert(self.spec_rows()[u].quals == 0);
        }
    }

    /// The flags and qualifier-free columns run alongside the rows, and no
    /// row id is the absent id.
    pub proof fn lemma_columns(&self)
        requires
            self.wf_core(),
        ensures
            self.spec_flags().len() == self.spec_rows().len(),
            self.spec_unqual().len() == self.spec_rows().len(),
            self.spec_rows().len() <= u32::MAX,
    {
        self.rows.lemma_len();
    }

    /// A function type has one convention per parameter type and at most
    /// 255 parameters.
    pub proof fn lemma_fns_short(&self, i: int)
        requires
            self.wf_core(),
            0 <= i < self.spec_fns().len(),
        ensures
            self.spec_fns()[i].conv.len() == self.spec_fns()[i].ty.len(),
            self.spec_fns()[i].ty.len() <= 255,
    {
        self.fn_tys.pool.lemma_storable(i);
    }

    /// Hash-consing of the side pools: equal entries are one id.
    pub proof fn lemma_pools_unique(&self)
        requires
            self.wf_core(),
        ensures
            forall|i: int, j: int|
                0 <= i < self.spec_args().len() && 0 <= j < self.spec_args().len() && #[trigger] self.spec_args()[i]
                    == #[trigger] self.spec_args()[j] ==> i == j,
            forall|i: int, j: int|
                0 <= i < self.spec_trait_refs().len() && 0 <= j < self.spec_trait_refs().len()
                    && #[trigger] self.spec_trait_refs()[i] == #[trigger] self.spec_trait_refs()[j] ==> i == j,
            forall|i: int, j: int|
                0 <= i < self.spec_proj_keys().len() && 0 <= j < self.spec_proj_keys().len()
                    && #[trigger] self.spec_proj_keys()[i] == #[trigger] self.spec_proj_keys()[j] ==> i == j,
            forall|i: int, j: int|
                0 <= i < self.spec_fns().len() && 0 <= j < self.spec_fns().len() && #[trigger] self.spec_fns()[i]
                    == #[trigger] self.spec_fns()[j] ==> i == j,
            forall|i: int, j: int|
                0 <= i < self.spec_rows().len() && 0 <= j < self.spec_rows().len() && #[trigger] self.spec_rows()[i]
                    == #[trigger] self.spec_rows()[j] ==> i == j,
    {
        assert forall|i: int, j: int|
            0 <= i < self.spec_args().len() && 0 <= j < self.spec_args().len() && #[trigger] self.spec_args()[i]
                == #[trigger] self.spec_args()[j] implies i == j by {
            self.args.lemma_unique(i, j);
        }
        assert forall|i: int, j: int|
            0 <= i < self.spec_trait_refs().len() && 0 <= j < self.spec_trait_refs().len()
                && #[trigger] self.spec_trait_refs()[i] == #[trigger] self.spec_trait_refs()[j] implies i == j by {
            self.trait_refs.lemma_unique(i, j);
        }
        assert forall|i: int, j: int|
            0 <= i < self.spec_proj_keys().len() && 0 <= j < self.spec_proj_keys().len()
                && #[trigger] self.spec_proj_keys()[i] == #[trigger] self.spec_proj_keys()[j] implies i == j by {
            self.proj_keys.lemma_unique(i, j);
        }
        assert forall|i: int, j: int|
            0 <= i < self.spec_fns().len() && 0 <= j < self.spec_fns().len() && #[trigger] self.spec_fns()[i]
                == #[trigger] self.spec_fns()[j] implies i == j by {
            self.fn_tys.pool.lemma_unique(i, j);
        }
        assert forall|i: int, j: int|
            0 <= i < self.spec_rows().len() && 0 <= j < self.spec_rows().len() && #[trigger] self.spec_rows()[i]
                == #[trigger] self.spec_rows()[j] implies i == j by {
            self.rows.lemma_unique(i, j);
        }
    }

    /// Every argument list holds at most `u16::MAX` types.
    pub proof fn lemma_args_short(&self, i: int)
        requires
            self.wf_core(),
            0 <= i < self.spec_args().len(),
        ensures
            self.spec_args()[i].len() <= 0xFFFF,
    {
        self.args.lemma_storable(i);
    }

    /// Room for eight more entries in every pool.
    pub fn has_capacity(&self) -> (r: bool)
        ensures
            r == self.has_room_for(8),
    {
        let lim: usize = usize::MAX / 64;
        let ok = |n: usize| -> (b: bool)
            ensures
                b == room(n as nat, 8),
            { n < lim - 8 && n < 0xFFFF_FFF7usize };
        ok(self.rows.len()) && ok(self.args.len()) && ok(self.trait_refs.len()) && ok(
            self.proj_keys.len(),
        ) && ok(self.fn_tys.len()) && ok(self.brands.len()) && ok(self.consts.len())
    }
}

} // verus!
