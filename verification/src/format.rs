//! Fixed constants and tables of the object-file format: permission-flag
//! classification, the architecture / machine-code mapping, object kinds,
//! and the sizes of the fixed records.

use vstd::prelude::*;
use crate::{Architecture, ObjectKind, SegmentType};

verus! {

/// Permission flag: executable.
pub const PF_X: u32 = 1;

/// Permission flag: writable.
pub const PF_W: u32 = 2;

/// Permission flag: readable.
pub const PF_R: u32 = 4;

/// Descriptor type of a loaded segment.
pub const PT_LOAD: u32 = 1;

/// Descriptor type of a segment that occupies no file space.
pub const PT_NULL: u32 = 0;

/// Object kind field of a standalone executable.
pub const ET_EXEC: u16 = 2;

/// File offsets of region contents are aligned to this boundary.
pub const CONTENT_ALIGN: u64 = 64;

/// Flags of a `Text` segment: readable and executable, nothing else.
pub const TEXT_FLAGS: u32 = PF_R + PF_X;

/// Flags of a `Data` segment: readable and writable, nothing else.
pub const DATA_FLAGS: u32 = PF_R + PF_W;

/// Flags of a `RoData` segment: readable, nothing else.
pub const RODATA_FLAGS: u32 = PF_R;

/// Size of the file header.
pub open spec fn ehdr_size(is_64: bool) -> int {
    if is_64 {
        64
    } else {
        52
    }
}

/// Size of one region descriptor.
pub open spec fn phent_size(is_64: bool) -> int {
    if is_64 {
        56
    } else {
        32
    }
}

/// Width in bytes of an address-sized field.
pub open spec fn word_size(is_64: bool) -> int {
    if is_64 {
        8
    } else {
        4
    }
}

/// The class of a segment whose permission flags are exactly `f`, or
/// `None` when the combination is not recognized and the segment is
/// dropped.  The match is exact set equality, not a subset test.
pub open spec fn class_of_flags(f: u32) -> Option<SegmentType> {
    if f == TEXT_FLAGS {
        Some(SegmentType::Text)
    } else if f == DATA_FLAGS {
        Some(SegmentType::Data)
    } else if f == RODATA_FLAGS {
        Some(SegmentType::RoData)
    } else {
        None
    }
}

/// Exact-match classification of permission flags.
pub fn classify_flags(f: u32) -> (r: Option<SegmentType>)
    ensures
        r == class_of_flags(f),
{
    if f == TEXT_FLAGS {
        Some(SegmentType::Text)
    } else if f == DATA_FLAGS {
        Some(SegmentType::Data)
    } else if f == RODATA_FLAGS {
        Some(SegmentType::RoData)
    } else {
        None
    }
}

/// The permission flags written for a class: the inverse of
/// [`class_of_flags`] on the recognized combinations.
pub open spec fn flags_of_class(ty: SegmentType) -> u32 {
    match ty {
        SegmentType::Text => TEXT_FLAGS,
        SegmentType::Data => DATA_FLAGS,
        SegmentType::RoData => RODATA_FLAGS,
    }
}

/// The permission flags written for a class.
pub fn class_flags(ty: SegmentType) -> (r: u32)
    ensures
        r == flags_of_class(ty),
{
    match ty {
        SegmentType::Text => TEXT_FLAGS,
        SegmentType::Data => DATA_FLAGS,
        SegmentType::RoData => RODATA_FLAGS,
    }
}

/// Classification is exact: encoding a class's flags and classifying them
/// again gives the class back.
pub proof fn lemma_class_roundtrip(ty: SegmentType)
    ensures
        class_of_flags(flags_of_class(ty)) == Some(ty),
{
}

/// Classification exactness, combination by combination: read+execute is
/// `Text`, read+write is `Data`, read alone is `RoData`, and write alone,
/// no flags at all, or all three flags classify as nothing and such a
/// segment is dropped.
pub proof fn lemma_classification_exact()
    ensures
        class_of_flags((PF_R + PF_X) as u32) == Some(SegmentType::Text),
        class_of_flags((PF_R + PF_W) as u32) == Some(SegmentType::Data),
        class_of_flags(PF_R) == Some(SegmentType::RoData),
        class_of_flags(PF_W) is None,
        class_of_flags(0) is None,
        class_of_flags((PF_R + PF_W + PF_X) as u32) is None,
{
}

/// The architecture that a machine value denotes, given the word width
/// of the image.  Values outside the table are `Unknown`.
pub open spec fn arch_of_machine(m: u16, is_64: bool) -> Architecture {
    if m == 183 && is_64 {
        Architecture::Aarch64
    } else if m == 40 {
        Architecture::Arm
    } else if m == 83 {
        Architecture::Avr
    } else if m == 247 {
        Architecture::Bpf
    } else if m == 164 {
        Architecture::Hexagon
    } else if m == 3 {
        Architecture::I386
    } else if m == 258 && is_64 {
        Architecture::LoongArch64
    } else if m == 8 {
        if is_64 {
            Architecture::Mips64
        } else {
            Architecture::Mips
        }
    } else if m == 105 {
        Architecture::Msp430
    } else if m == 20 {
        Architecture::PowerPc
    } else if m == 21 {
        Architecture::PowerPc64
    } else if m == 243 {
        if is_64 {
            Architecture::Riscv64
        } else {
            Architecture::Riscv32
        }
    } else if m == 22 {
        Architecture::S390x
    } else if m == 43 {
        Architecture::Sparc64
    } else if m == 62 {
        if is_64 {
            Architecture::X86_64
        } else {
            Architecture::X86_64X32
        }
    } else {
        Architecture::Unknown
    }
}

/// Decode a machine value into an architecture.
pub fn machine_to_arch(m: u16, is_64: bool) -> (r: Architecture)
    ensures
        r == arch_of_machine(m, is_64),
{
    if m == 183 && is_64 {
        Architecture::Aarch64
    } else if m == 40 {
        Architecture::Arm
    } else if m == 83 {
        Architecture::Avr
    } else if m == 247 {
        Architecture::Bpf
    } else if m == 164 {
        Architecture::Hexagon
    } else if m == 3 {
        Architecture::I386
    } else if m == 258 && is_64 {
        Architecture::LoongArch64
    } else if m == 8 {
        if is_64 {
            Architecture::Mips64
        } else {
            Architecture::Mips
        }
    } else if m == 105 {
        Architecture::Msp430
    } else if m == 20 {
        Architecture::PowerPc
    } else if m == 21 {
        Architecture::PowerPc64
    } else if m == 243 {
        if is_64 {
            Architecture::Riscv64
        } else {
            Architecture::Riscv32
        }
    } else if m == 22 {
        Architecture::S390x
    } else if m == 43 {
        Architecture::Sparc64
    } else if m == 62 {
        if is_64 {
            Architecture::X86_64
        } else {
            Architecture::X86_64X32
        }
    } else {
        Architecture::Unknown
    }
}

/// The machine value written for an architecture: the exhaustive encoding
/// table, with an explicit `None` for anything outside it.
pub open spec fn machine_of_arch(a: Architecture) -> Option<u16> {
    match a {
        Architecture::Aarch64 => Some(183u16),
        Architecture::Arm => Some(40u16),
        Architecture::Avr => Some(83u16),
        Architecture::Bpf => Some(247u16),
        Architecture::Hexagon => Some(164u16),
        Architecture::I386 => Some(3u16),
        Architecture::LoongArch64 => Some(258u16),
        Architecture::Mips => Some(8u16),
        Architecture::Mips64 => Some(8u16),
        Architecture::Msp430 => Some(105u16),
        Architecture::PowerPc => Some(20u16),
        Architecture::PowerPc64 => Some(21u16),
        Architecture::Riscv32 => Some(243u16),
        Architecture::Riscv64 => Some(243u16),
        Architecture::S390x => Some(22u16),
        Architecture::Sparc64 => Some(43u16),
        Architecture::X86_64 => Some(62u16),
        Architecture::X86_64X32 => Some(62u16),
        Architecture::Unknown => None,
    }
}

/// Encode an architecture into its machine value.
pub fn arch_to_machine(a: Architecture) -> (r: Option<u16>)
    ensures
        r == machine_of_arch(a),
{
    match a {
        Architecture::Aarch64 => Some(183u16),
        Architecture::Arm => Some(40u16),
        Architecture::Avr => Some(83u16),
        Architecture::Bpf => Some(247u16),
        Architecture::Hexagon => Some(164u16),
        Architecture::I386 => Some(3u16),
        Architecture::LoongArch64 => Some(258u16),
        Architecture::Mips => Some(8u16),
        Architecture::Mips64 => Some(8u16),
        Architecture::Msp430 => Some(105u16),
        Architecture::PowerPc => Some(20u16),
        Architecture::PowerPc64 => Some(21u16),
        Architecture::Riscv32 => Some(243u16),
        Architecture::Riscv64 => Some(243u16),
        Architecture::S390x => Some(22u16),
        Architecture::Sparc64 => Some(43u16),
        Architecture::X86_64 => Some(62u16),
        Architecture::X86_64X32 => Some(62u16),
        Architecture::Unknown => None,
    }
}

/// An architecture agrees with a word width when decoding its machine
/// value at that width gives the architecture back.  Every decoded image
/// satisfies this for its own width.
pub open spec fn arch_matches_width(a: Architecture, is_64: bool) -> bool {
    machine_of_arch(a) matches Some(m) && arch_of_machine(m, is_64) == a
}

/// The machine table is exact: an architecture that agrees with the word
/// width survives the encode/decode round trip, and a decoded architecture
/// always agrees with the width it was decoded at.
pub proof fn lemma_machine_roundtrip(m: u16, is_64: bool)
    ensures
        arch_of_machine(m, is_64) != Architecture::Unknown ==> arch_matches_width(
            arch_of_machine(m, is_64),
            is_64,
        ),
{
}

/// The object kind that a type value denotes.
pub open spec fn kind_of_type(t: u16) -> ObjectKind {
    if t == 1 {
        ObjectKind::Relocatable
    } else if t == 2 {
        ObjectKind::Executable
    } else if t == 3 {
        ObjectKind::Dynamic
    } else if t == 4 {
        ObjectKind::Core
    } else {
        ObjectKind::Unknown
    }
}

/// Decode a type value into an object kind.
pub fn type_to_kind(t: u16) -> (r: ObjectKind)
    ensures
        r == kind_of_type(t),
{
    if t == 1 {
        ObjectKind::Relocatable
    } else if t == 2 {
        ObjectKind::Executable
    } else if t == 3 {
        ObjectKind::Dynamic
    } else if t == 4 {
        ObjectKind::Core
    } else {
        ObjectKind::Unknown
    }
}

/// `c` rounded up to the content alignment boundary.
pub open spec fn align64(c: int) -> int {
    ((c + 63) / 64) * 64
}

/// Rounding up never moves backwards and lands within one boundary.
pub proof fn lemma_align64_bounds(c: int)
    requires
        c >= 0,
    ensures
        c <= align64(c) < c + 64,
        align64(align64(c)) == align64(c),
{
    assert(c <= ((c + 63) / 64) * 64 < c + 64) by (nonlinear_arith);
    let q = (c + 63) / 64;
    let a = q * 64;
    vstd::arithmetic::div_mod::lemma_mod_multiples_basic(q, 64);
    assert(((a + 63) / 64) * 64 == a) by (nonlinear_arith)
        requires
            a >= 0,
            a % 64 == 0,
    {
    }
}

/// Rounding up is monotone.
pub proof fn lemma_align64_mono(a: int, b: int)
    requires
        0 <= a <= b,
    ensures
        align64(a) <= align64(b),
{
    vstd::arithmetic::div_mod::lemma_div_is_ordered(a + 63, b + 63, 64);
    vstd::arithmetic::mul::lemma_mul_inequality((a + 63) / 64, (b + 63) / 64, 64);
}

/// Round `c` up to the content alignment boundary.
pub fn align64_up(c: u64) -> (r: u64)
    requires
        align64(c as int) <= u64::MAX,
    ensures
        r == align64(c as int),
{
    let rem = c % 64;
    if rem == 0 {
        proof {
            lemma_align64_exact(c as int);
        }
        c
    } else {
        proof {
            lemma_align64_rem(c as int);
        }
        c + (64 - rem)
    }
}

/// On a boundary, rounding up is the identity.
proof fn lemma_align64_exact(c: int)
    requires
        c >= 0,
        c % 64 == 0,
    ensures
        align64(c) == c,
{
    assert(((c + 63) / 64) * 64 == c) by (nonlinear_arith)
        requires
            c >= 0,
            c % 64 == 0,
    {
    }
}

/// Off a boundary, rounding up adds what is missing to the next one.
proof fn lemma_align64_rem(c: int)
    requires
        c >= 0,
        c % 64 != 0,
    ensures
        align64(c) == c + (64 - c % 64),
{
    assert(((c + 63) / 64) * 64 == c + (64 - c % 64)) by (nonlinear_arith)
        requires
            c >= 0,
            c % 64 != 0,
    {
    }
}

} // verus!
