//! Decoding of an ELF byte buffer into the loadable-image model.
//!
//! [`spec_decode`] is the mathematical definition of what decoding means:
//! which headers are acceptable, which segments are kept, and which inputs
//! fail with which error.  [`read_elf_file`] is the executable decoder,
//! proved to return exactly what [`spec_decode`] says.

use vstd::prelude::*;
use crate::bytes::{copy_range, read_word, word_val};
use crate::format::{
    class_of_flags, classify_flags, ehdr_size, kind_of_type, machine_to_arch, phent_size,
    type_to_kind, word_size, PT_LOAD,
};
use crate::{ElfError, ElfInfo, ElfModel, Endianness, Segment, SegmentModel};

verus! {

/// Whether the header declares a 64-bit image.
pub open spec fn h_is_64(b: Seq<u8>) -> bool {
    b[4] == 2
}

/// Whether the header declares little-endian fields.
pub open spec fn h_little(b: Seq<u8>) -> bool {
    b[5] == 1
}

/// The value of the `n`-byte field at `off`.
pub open spec fn h_field(b: Seq<u8>, off: int, n: int) -> int {
    word_val(b.subrange(off, off + n), h_little(b))
}

/// The value of the address-sized field at `off`.
pub open spec fn h_word(b: Seq<u8>, off: int) -> int {
    h_field(b, off, word_size(h_is_64(b)))
}

/// The object kind field.
pub open spec fn h_type(b: Seq<u8>) -> int {
    h_field(b, 16, 2)
}

/// The machine field.
pub open spec fn h_machine(b: Seq<u8>) -> int {
    h_field(b, 18, 2)
}

/// The entry address field.
pub open spec fn h_entry(b: Seq<u8>) -> int {
    h_word(b, 24)
}

/// The file offset of the segment descriptor table.
pub open spec fn h_phoff(b: Seq<u8>) -> int {
    h_word(b, if h_is_64(b) { 32int } else { 28 })
}

/// The number of segment descriptors.
pub open spec fn h_phnum(b: Seq<u8>) -> int {
    h_field(b, if h_is_64(b) { 56int } else { 44 }, 2)
}

/// An acceptable header: the magic number, a valid class and byte order,
/// a complete file header, and a descriptor table that lies inside the
/// buffer.
pub open spec fn header_ok(b: Seq<u8>) -> bool {
    &&& b.len() >= 6
    &&& b[0] == 0x7f
    &&& b[1] == 0x45
    &&& b[2] == 0x4c
    &&& b[3] == 0x46
    &&& (b[4] == 1 || b[4] == 2)
    &&& (b[5] == 1 || b[5] == 2)
    &&& b.len() >= ehdr_size(h_is_64(b))
    &&& h_phoff(b) + h_phnum(b) * phent_size(h_is_64(b)) <= b.len()
}

/// The file offset of descriptor `i`.
pub open spec fn ph_base(b: Seq<u8>, i: int) -> int {
    h_phoff(b) + i * phent_size(h_is_64(b))
}

/// The type field of descriptor `i`.
pub open spec fn ph_type(b: Seq<u8>, i: int) -> int {
    h_field(b, ph_base(b, i), 4)
}

/// The permission flags of descriptor `i`.
pub open spec fn ph_flags(b: Seq<u8>, i: int) -> int {
    h_field(b, ph_base(b, i) + if h_is_64(b) { 4int } else { 24 }, 4)
}

/// The file offset of the content of descriptor `i`.
pub open spec fn ph_offset(b: Seq<u8>, i: int) -> int {
    h_word(b, ph_base(b, i) + if h_is_64(b) { 8int } else { 4 })
}

/// The virtual address of descriptor `i`.
pub open spec fn ph_vaddr(b: Seq<u8>, i: int) -> int {
    h_word(b, ph_base(b, i) + if h_is_64(b) { 16int } else { 8 })
}

/// The stored content size of descriptor `i`.
pub open spec fn ph_filesz(b: Seq<u8>, i: int) -> int {
    h_word(b, ph_base(b, i) + if h_is_64(b) { 32int } else { 16 })
}

/// The memory image size of descriptor `i`.
pub open spec fn ph_memsz(b: Seq<u8>, i: int) -> int {
    h_word(b, ph_base(b, i) + if h_is_64(b) { 40int } else { 20 })
}

/// The segment that descriptor `i` decodes to, assuming it is kept and its
/// sizes are consistent.
pub open spec fn decoded_segment(b: Seq<u8>, i: int) -> SegmentModel {
    SegmentModel {
        addr: ph_vaddr(b, i) as u64,
        ty: class_of_flags(ph_flags(b, i) as u32)->Some_0,
        data: b.subrange(ph_offset(b, i), ph_offset(b, i) + ph_filesz(b, i)),
        zero_padding: (ph_memsz(b, i) - ph_filesz(b, i)) as u64,
        load: true,
    }
}

/// The segments decoded from descriptors `i` and onward.  A descriptor is
/// kept only if it is a loaded segment whose flags classify; content that
/// lies outside the buffer is a malformed input, and a memory size smaller
/// than the stored content is an inconsistent segment size.
pub open spec fn spec_decode_segs(b: Seq<u8>, i: int) -> Result<Seq<SegmentModel>, ElfError>
    decreases h_phnum(b) - i,
{
    if i >= h_phnum(b) {
        Ok(Seq::empty())
    } else if ph_type(b, i) != PT_LOAD {
        spec_decode_segs(b, i + 1)
    } else if class_of_flags(ph_flags(b, i) as u32) is None {
        spec_decode_segs(b, i + 1)
    } else if ph_offset(b, i) + ph_filesz(b, i) > b.len() {
        Err(ElfError::MalformedHeader)
    } else if ph_memsz(b, i) < ph_filesz(b, i) {
        Err(ElfError::InconsistentSegmentSize)
    } else {
        match spec_decode_segs(b, i + 1) {
            Ok(rest) => Ok(seq![decoded_segment(b, i)] + rest),
            Err(e) => Err(e),
        }
    }
}

/// What decoding a byte buffer means.
pub open spec fn spec_decode(b: Seq<u8>) -> Result<ElfModel, ElfError> {
    if !header_ok(b) {
        Err(ElfError::MalformedHeader)
    } else {
        match spec_decode_segs(b, 0) {
            Ok(segs) => Ok(
                ElfModel {
                    segments: segs,
                    entry: h_entry(b) as u64,
                    is_64: h_is_64(b),
                    endian: if h_little(b) {
                        Endianness::Little
                    } else {
                        Endianness::Big
                    },
                    architecture: crate::format::arch_of_machine(h_machine(b) as u16, h_is_64(b)),
                    kind: kind_of_type(h_type(b) as u16),
                },
            ),
            Err(e) => Err(e),
        }
    }
}

/// Reads in an ELF image from bytes.
///
/// The reading is *lossy*: only loaded segments whose permission flags
/// classify exactly are kept, together with the file header fields the
/// model carries.  The result is exactly what [`spec_decode`] assigns to
/// the input, error cases included.
pub fn read_elf_file(bytes: &[u8]) -> (r: Result<ElfInfo, ElfError>)
    ensures
        (match r {
            Ok(info) => spec_decode(bytes@) == Ok::<ElfModel, ElfError>(info@),
            Err(e) => spec_decode(bytes@) == Err::<ElfModel, ElfError>(e),
        }),
{
    let ghost b = bytes@;
    let len = bytes.len();
    if len < 6 || bytes[0] != 0x7f || bytes[1] != 0x45 || bytes[2] != 0x4c || bytes[3] != 0x46 {
        return Err(ElfError::MalformedHeader);
    }
    if bytes[4] != 1 && bytes[4] != 2 {
        return Err(ElfError::MalformedHeader);
    }
    if bytes[5] != 1 && bytes[5] != 2 {
        return Err(ElfError::MalformedHeader);
    }
    let is_64 = bytes[4] == 2;
    let little = bytes[5] == 1;
    let ehsz: usize = if is_64 { 64 } else { 52 };
    let wsz: usize = if is_64 { 8 } else { 4 };
    let phent: u64 = if is_64 { 56 } else { 32 };
    if len < ehsz {
        return Err(ElfError::MalformedHeader);
    }
    proof {
        crate::bytes::lemma_pow256_8();
    }
    let len64 = len as u64;
    let e_type = read_word(bytes, 16, 2, little) as u16;
    let machine = read_word(bytes, 18, 2, little) as u16;
    let entry = read_word(bytes, 24, wsz, little);
    let phoff = read_word(bytes, if is_64 { 32 } else { 28 }, wsz, little);
    let phnum = read_word(bytes, if is_64 { 56 } else { 44 }, 2, little);
    if !(phoff <= len64 && phnum * phent <= len64 - phoff) {
        return Err(ElfError::MalformedHeader);
    }
    assert(header_ok(b));

    let mut segs: Vec<Segment> = Vec::new();
    let mut i: u64 = 0;
    while i < phnum
        invariant
            header_ok(b),
            b == bytes@,
            len == b.len(),
            len64 == len as u64,
            is_64 == h_is_64(b),
            little == h_little(b),
            wsz == word_size(is_64),
            phent == phent_size(is_64),
            phoff == h_phoff(b),
            phnum == h_phnum(b),
            0 <= i <= phnum,
            (spec_decode_segs(b, i as int) matches Ok(rest) ==> spec_decode_segs(b, 0)
                == Ok::<Seq<SegmentModel>, ElfError>(
                segs@.map_values(|s: Segment| s@) + rest,
            )),
            (spec_decode_segs(b, i as int) matches Err(e) ==> spec_decode_segs(b, 0)
                == Err::<Seq<SegmentModel>, ElfError>(e)),
        decreases phnum - i,
    {
        proof {
            vstd::arithmetic::mul::lemma_mul_inequality(i as int + 1, phnum as int, phent as int);
            vstd::arithmetic::mul::lemma_mul_is_distributive_add_other_way(
                phent as int,
                i as int,
                1,
            );
        }
        let po = phoff + i * phent;
        let pou = po as usize;
        let ghost ii = i as int;
        let ghost oldsegs = segs@;
        let ptype = read_word(bytes, pou, 4, little);
        let flags = read_word(bytes, pou + if is_64 { 4 } else { 24 }, 4, little) as u32;
        assert(ptype == ph_type(b, ii));
        assert(flags == ph_flags(b, ii) as u32);
        if ptype == PT_LOAD as u64 {
            match classify_flags(flags) {
                None => {},
                Some(ty) => {
                    let offset = read_word(bytes, pou + if is_64 { 8 } else { 4 }, wsz, little);
                    let vaddr = read_word(bytes, pou + if is_64 { 16 } else { 8 }, wsz, little);
                    let filesz = read_word(bytes, pou + if is_64 { 32 } else { 16 }, wsz, little);
                    let memsz = read_word(bytes, pou + if is_64 { 40 } else { 20 }, wsz, little);
                    assert(offset == ph_offset(b, ii) && vaddr == ph_vaddr(b, ii) && filesz
                        == ph_filesz(b, ii) && memsz == ph_memsz(b, ii));
                    if !(offset <= len64 && filesz <= len64 - offset) {
                        return Err(ElfError::MalformedHeader);
                    }
                    if memsz < filesz {
                        return Err(ElfError::InconsistentSegmentSize);
                    }
                    let data = copy_range(bytes, offset as usize, filesz as usize);
                    let seg = Segment {
                        addr: vaddr,
                        ty,
                        data,
                        zero_padding: memsz - filesz,
                        load: true,
                    };
                    assert(seg@ == decoded_segment(b, ii));
                    segs.push(seg);
                    proof {
                        assert(segs@.map_values(|s: Segment| s@) =~= oldsegs.map_values(
                            |s: Segment| s@,
                        ).push(decoded_segment(b, ii)));
                        let r1 = spec_decode_segs(b, ii + 1);
                        if r1 is Ok {
                            let rest = r1->Ok_0;
                            assert(spec_decode_segs(b, ii) == Ok::<Seq<SegmentModel>, ElfError>(
                                seq![decoded_segment(b, ii)] + rest));
                            assert(oldsegs.map_values(|s: Segment| s@) + (seq![
                                decoded_segment(b, ii)] + rest) =~= segs@.map_values(
                                |s: Segment| s@,
                            ) + rest);
                        }
                    }
                },
            }
        }
        i = i + 1;
    }
    assert(spec_decode_segs(b, phnum as int) == Ok::<Seq<SegmentModel>, ElfError>(Seq::empty()));
    let info = ElfInfo {
        segments: segs,
        entry,
        is_64,
        endian: if little {
            Endianness::Little
        } else {
            Endianness::Big
        },
        architecture: machine_to_arch(machine, is_64),
        kind: type_to_kind(e_type),
    };
    proof {
        assert(info@.segments =~= info.segments@.map_values(|s: Segment| s@) + Seq::<
            SegmentModel,
        >::empty());
        assert(spec_decode(b) matches Ok(m) && m =~= info@);
    }
    Ok(info)
}

} // verus!
