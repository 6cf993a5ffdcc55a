//! The header of binary model files: the magic line, the fixed-width parameters and the
//! n-gram counts.
pub mod util;

use vstd::prelude::*;
use vstd::string::StringSliceAdditionalSpecFns;
use crate::bit_packing::read_le;
use crate::constant::BINARY_MAGIC;
use crate::error::LMError;
use crate::hash::le_bytes;
use crate::types::ModelType;

verus! {

/// The bytes that begin every binary model file.
pub open spec fn magic_bytes() -> Seq<u8> {
    BINARY_MAGIC.spec_bytes()
}

/// The model type that the byte `b` stands for.
pub open spec fn model_type_of(b: u8) -> Option<ModelType> {
    if b == 0 {
        Some(ModelType::Probing)
    } else if b == 1 {
        Some(ModelType::RestProbing)
    } else if b == 2 {
        Some(ModelType::Trie)
    } else if b == 3 {
        Some(ModelType::QuantTrie)
    } else if b == 4 {
        Some(ModelType::ArrayTrie)
    } else if b == 5 {
        Some(ModelType::QuantArrayTrie)
    } else {
        None
    }
}

/// The model type that the byte `b` stands for, if any.
pub fn model_type_from_byte(b: u8) -> (r: Option<ModelType>)
    ensures
        r == model_type_of(b),
{
    if b == 0 {
        Some(ModelType::Probing)
    } else if b == 1 {
        Some(ModelType::RestProbing)
    } else if b == 2 {
        Some(ModelType::Trie)
    } else if b == 3 {
        Some(ModelType::QuantTrie)
    } else if b == 4 {
        Some(ModelType::ArrayTrie)
    } else if b == 5 {
        Some(ModelType::QuantArrayTrie)
    } else {
        None
    }
}

/// The name of a model type's variant, as `{:?}` prints it.
pub open spec fn model_type_name(t: ModelType) -> Seq<char> {
    match t {
        ModelType::Probing => "Probing"@,
        ModelType::RestProbing => "RestProbing"@,
        ModelType::Trie => "Trie"@,
        ModelType::QuantTrie => "QuantTrie"@,
        ModelType::ArrayTrie => "ArrayTrie"@,
        ModelType::QuantArrayTrie => "QuantArrayTrie"@,
    }
}

fn model_type_str(t: ModelType) -> (r: &'static str)
    ensures
        r@ == model_type_name(t),
{
    match t {
        ModelType::Probing => "Probing",
        ModelType::RestProbing => "RestProbing",
        ModelType::Trie => "Trie",
        ModelType::QuantTrie => "QuantTrie",
        ModelType::ArrayTrie => "ArrayTrie",
        ModelType::QuantArrayTrie => "QuantArrayTrie",
    }
}

/// The fixed-width parameters after the magic line; the probing multiplier is kept as the
/// bits of its `f32`.
#[derive(Debug, Clone)]
pub struct FixedWidthHeader {
    pub order: u8,
    pub probing_multiplier_bits: u32,
    pub model_type: ModelType,
    pub has_vocabulary: bool,
    pub search_version: u32,
}

/// The parameters of a binary file's header.
#[derive(Debug, Clone)]
pub struct HeaderParameters {
    pub fixed: FixedWidthHeader,
    pub counts: Vec<u64>,
}

/// Size in bytes of a header with counts for `order` orders.
pub open spec fn spec_header_size(order: u8) -> int {
    magic_bytes().len() + 11 + 8 * order
}

/// Size in bytes of a header with counts for `order` orders.
pub fn header_size(order: u8) -> (r: usize)
    requires
        spec_header_size(order) <= usize::MAX,
    ensures
        r == spec_header_size(order),
{
    BINARY_MAGIC.as_bytes().len() + 11 + (order as usize) * 8
}

/// What reading the fixed-width parameters at `at` gives: `EndOfFile` when the bytes end
/// before the model type, `UnsupportedModelType` for an unknown type, `EndOfFile` when they
/// end before the search version.
pub open spec fn fixed_width_at(b: Seq<u8>, at: int) -> Result<FixedWidthHeader, LMError> {
    if b.len() < at + 6 {
        Err(LMError::EndOfFile)
    } else if model_type_of(b[at + 5]) is None {
        Err(LMError::UnsupportedModelType)
    } else if b.len() < at + 11 {
        Err(LMError::EndOfFile)
    } else {
        Ok(
            FixedWidthHeader {
                order: b[at],
                probing_multiplier_bits: le_bytes(b, at + 1, 4) as u32,
                model_type: model_type_of(b[at + 5])->0,
                has_vocabulary: b[at + 6] != 0,
                search_version: le_bytes(b, at + 7, 4) as u32,
            },
        )
    }
}

/// Reads the fixed-width parameters at byte `at`.
pub fn read_fixed_width(b: &[u8], at: usize) -> (r: Result<FixedWidthHeader, LMError>)
    requires
        at <= b@.len(),
    ensures
        r == fixed_width_at(b@, at as int),
{
    if b.len() - at < 6 {
        return Err(LMError::EndOfFile);
    }
    let model_type = match model_type_from_byte(b[at + 5]) {
        Some(t) => t,
        None => {
            return Err(LMError::UnsupportedModelType);
        },
    };
    if b.len() - at < 11 {
        return Err(LMError::EndOfFile);
    }
    Ok(
        FixedWidthHeader {
            order: b[at],
            probing_multiplier_bits: read_le(b, at + 1, 4) as u32,
            model_type,
            has_vocabulary: b[at + 6] != 0,
            search_version: read_le(b, at + 7, 4) as u32,
        },
    )
}

/// Whether `b` begins with the magic line.
fn starts_with_magic(b: &[u8]) -> (r: bool)
    ensures
        r == (b@.len() >= magic_bytes().len() && b@.subrange(0, magic_bytes().len() as int) == magic_bytes()),
{
    let magic = BINARY_MAGIC.as_bytes();
    let m = magic.len();
    if b.len() < m {
        return false;
    }
    let mut i: usize = 0;
    while i < m
        invariant
            m == magic@.len(),
            magic@ == magic_bytes(),
            m <= b@.len(),
            i <= m,
            forall|k: int| 0 <= k < i ==> b@[k] == magic@[k],
        decreases m - i,
    {
        if b[i] != magic[i] {
            proof {
                assert(b@.subrange(0, m as int)[i as int] != magic_bytes()[i as int]);
            }
            return false;
        }
        i = i + 1;
    }
    assert(b@.subrange(0, m as int) =~= magic_bytes());
    true
}

/// The model type of a file that begins with `b`, when it is a binary model file: `None`
/// when the magic line is missing; otherwise the reading of its fixed-width parameters.
pub fn recognize_binary(b: &[u8]) -> (r: Result<Option<ModelType>, LMError>)
    ensures
        !(b@.len() >= magic_bytes().len() && b@.subrange(0, magic_bytes().len() as int) == magic_bytes())
            ==> r == Ok::<Option<ModelType>, LMError>(None),
        b@.len() >= magic_bytes().len() && b@.subrange(0, magic_bytes().len() as int) == magic_bytes() ==> match fixed_width_at(
            b@,
            magic_bytes().len() as int,
        ) {
            Ok(f) => r == Ok::<Option<ModelType>, LMError>(Some(f.model_type)),
            Err(e) => r == Err::<Option<ModelType>, LMError>(e),
        },
{
    if !starts_with_magic(b) {
        return Ok(None);
    }
    let m = BINARY_MAGIC.as_bytes().len();
    assert(m <= b@.len());
    match read_fixed_width(b, m) {
        Ok(f) => Ok(Some(f.model_type)),
        Err(e) => Err(e),
    }
}

/// The counts after the fixed-width parameters: `order` little-endian `u64`s from `at`.
pub open spec fn counts_at(b: Seq<u8>, at: int, order: nat) -> Seq<u64> {
    Seq::new(order, |i: int| le_bytes(b, at + 8 * i, 8))
}

/// Reads the header of a binary model file from its first bytes `b`, expecting a model of
/// type `model_type` and search version `search_version`.
pub fn initialize_binary(b: &[u8], model_type: ModelType, search_version: u32) -> (r: Result<HeaderParameters, LMError>)
    ensures
        ({
            let m = magic_bytes().len() as int;
            if b@.len() < m {
                r matches Err(LMError::EndOfFile)
            } else if b@.subrange(0, m) != magic_bytes() {
                r matches Err(LMError::FormatError(msg)) && msg@ == "Not a KenLM binary file"@
            } else {
                match fixed_width_at(b@, m) {
                    Err(e) => r matches Err(e2) && e2 == e,
                    Ok(f) => if f.model_type != model_type {
                        r matches Err(LMError::FormatError(msg)) && msg@ == "Model type mismatch: expected "@
                            + model_type_name(model_type) + ", got "@ + model_type_name(f.model_type)
                    } else if f.search_version != search_version {
                        r matches Err(LMError::VersionMismatch { expected, actual }) && expected == search_version
                            && actual == f.search_version
                    } else if b@.len() < m + 11 + 8 * f.order {
                        r matches Err(LMError::EndOfFile)
                    } else {
                        r matches Ok(p) && p.fixed == f && p.counts@ == counts_at(b@, m + 11, f.order as nat)
                    },
                }
            }
        }),
{
    let m = BINARY_MAGIC.as_bytes().len();
    if b.len() < m {
        return Err(LMError::EndOfFile);
    }
    if !starts_with_magic(b) {
        return Err(LMError::FormatError("Not a KenLM binary file".to_owned()));
    }
    let fixed = match read_fixed_width(b, m) {
        Ok(f) => f,
        Err(e) => {
            return Err(e);
        },
    };
    if fixed.model_type != model_type {
        let mut msg = String::from_str("Model type mismatch: expected ");
        msg.append(model_type_str(model_type));
        msg.append(", got ");
        msg.append(model_type_str(fixed.model_type));
        return Err(LMError::FormatError(msg));
    }
    if fixed.search_version != search_version {
        return Err(LMError::VersionMismatch { expected: search_version, actual: fixed.search_version });
    }
    let order = fixed.order as usize;
    let start = m + 11;
    if b.len() - start < order * 8 {
        return Err(LMError::EndOfFile);
    }
    let mut counts: Vec<u64> = Vec::new();
    let mut i: usize = 0;
    assert(counts@ =~= counts_at(b@, start as int, order as nat).take(0));
    while i < order
        invariant
            start == m + 11,
            start + 8 * order <= b@.len(),
            order <= 255,
            i <= order,
            counts@ == counts_at(b@, start as int, order as nat).take(i as int),
        decreases order - i,
    {
        assert(8 * i + 8 <= 8 * order) by (nonlinear_arith)
            requires
                i < order,
        ;
        assert(start + 8 * i + 8 <= b@.len());
        assert(b@.len() == b.len());
        let c = read_le(b, start + 8 * i, 8);
        counts.push(c);
        assert(counts@ =~= counts_at(b@, start as int, order as nat).take(i + 1));
        i = i + 1;
    }
    assert(counts@ =~= counts_at(b@, start as int, order as nat));
    Ok(HeaderParameters { fixed, counts })
}

} // verus!
