use elf_repack::read::read_elf_file;
use elf_repack::write::create_elf_file;
use object::{Object, ObjectSegment};
use elf_repack::{strip_zeroes, Architecture, ElfError, ElfInfo, Endianness, ObjectKind, Segment, SegmentType};

/// Build a minimal 64-bit little-endian ELF by hand: header, program
/// headers, then each segment's content packed contiguously (the decoder
/// does not require aligned input).  Each entry is
/// `(p_type, p_flags, p_vaddr, data, p_memsz)`.
fn raw_elf64le(entry: u64, machine: u16, e_type: u16, segs: &[(u32, u32, u64, Vec<u8>, u64)]) -> Vec<u8> {
    let n = segs.len();
    let mut out = vec![0x7f, 0x45, 0x4c, 0x46, 2, 1, 1, 0, 0, 0, 0, 0, 0, 0, 0, 0];
    out.extend_from_slice(&e_type.to_le_bytes());
    out.extend_from_slice(&machine.to_le_bytes());
    out.extend_from_slice(&1u32.to_le_bytes());
    out.extend_from_slice(&entry.to_le_bytes());
    out.extend_from_slice(&64u64.to_le_bytes()); // e_phoff
    out.extend_from_slice(&0u64.to_le_bytes()); // e_shoff
    out.extend_from_slice(&0u32.to_le_bytes()); // e_flags
    out.extend_from_slice(&64u16.to_le_bytes()); // e_ehsize
    out.extend_from_slice(&56u16.to_le_bytes()); // e_phentsize
    out.extend_from_slice(&(n as u16).to_le_bytes()); // e_phnum
    out.extend_from_slice(&[0, 0, 0, 0, 0, 0]); // shentsize, shnum, shstrndx
    assert_eq!(out.len(), 64);
    let mut offset = 64u64 + 56 * n as u64;
    for (p_type, flags, vaddr, data, memsz) in segs {
        out.extend_from_slice(&p_type.to_le_bytes());
        out.extend_from_slice(&flags.to_le_bytes());
        out.extend_from_slice(&offset.to_le_bytes());
        out.extend_from_slice(&vaddr.to_le_bytes());
        out.extend_from_slice(&vaddr.to_le_bytes());
        out.extend_from_slice(&(data.len() as u64).to_le_bytes());
        out.extend_from_slice(&memsz.to_le_bytes());
        out.extend_from_slice(&1u64.to_le_bytes());
        offset += data.len() as u64;
    }
    for (_, _, _, data, _) in segs {
        out.extend_from_slice(data);
    }
    out
}

fn seg(ty: SegmentType, addr: u64, data: Vec<u8>, zero_padding: u64) -> Segment {
    Segment { addr, ty, data, zero_padding, load: true }
}

#[test]
fn classification_is_exact() {
    // read+execute, read+write, read alone are kept; write alone, none,
    // and read+write+execute are dropped.
    let bytes = raw_elf64le(
        0x1000,
        62,
        2,
        &[
            (1, 5, 0x1000, vec![1, 2], 2),
            (1, 6, 0x2000, vec![3], 1),
            (1, 4, 0x3000, vec![4, 5, 6], 3),
            (1, 2, 0x4000, vec![7], 1),
            (1, 0, 0x5000, vec![8], 1),
            (1, 7, 0x6000, vec![9], 1),
        ],
    );
    let info = read_elf_file(&bytes).unwrap();
    assert_eq!(info.segments.len(), 3);
    assert_eq!(info.segments[0].ty, SegmentType::Text);
    assert_eq!(info.segments[0].addr, 0x1000);
    assert_eq!(info.segments[0].data, vec![1, 2]);
    assert_eq!(info.segments[1].ty, SegmentType::Data);
    assert_eq!(info.segments[1].addr, 0x2000);
    assert_eq!(info.segments[2].ty, SegmentType::RoData);
    assert_eq!(info.segments[2].data, vec![4, 5, 6]);
}

#[test]
fn non_load_descriptors_are_dropped() {
    let bytes = raw_elf64le(0, 62, 2, &[(6, 5, 0x1000, vec![1, 2], 2), (1, 5, 0x2000, vec![3], 1)]);
    let info = read_elf_file(&bytes).unwrap();
    assert_eq!(info.segments.len(), 1);
    assert_eq!(info.segments[0].addr, 0x2000);
}

#[test]
fn header_fields_survive_decode() {
    let bytes = raw_elf64le(0xdeadbeef, 183, 2, &[]);
    let info = read_elf_file(&bytes).unwrap();
    assert_eq!(info.entry, 0xdeadbeef);
    assert!(info.is_64);
    assert_eq!(info.endian, Endianness::Little);
    assert_eq!(info.architecture, Architecture::Aarch64);
    assert_eq!(info.kind, ObjectKind::Executable);
}

#[test]
fn malformed_input_is_rejected() {
    assert_eq!(read_elf_file(b"hello"), Err(ElfError::MalformedHeader));
    assert_eq!(read_elf_file(&[]), Err(ElfError::MalformedHeader));
    let mut bytes = raw_elf64le(0, 62, 2, &[]);
    bytes[0] = 0x7e;
    assert_eq!(read_elf_file(&bytes), Err(ElfError::MalformedHeader));
    // A declared content range that runs past the end of the file.
    let mut bytes = raw_elf64le(0, 62, 2, &[(1, 5, 0, vec![1, 2, 3], 3)]);
    bytes.truncate(bytes.len() - 1);
    assert_eq!(read_elf_file(&bytes), Err(ElfError::MalformedHeader));
}

#[test]
fn inconsistent_segment_size_is_rejected() {
    // Declared memory size (1) smaller than stored content (3 bytes).
    let bytes = raw_elf64le(0, 62, 2, &[(1, 5, 0, vec![1, 2, 3], 1)]);
    assert_eq!(read_elf_file(&bytes), Err(ElfError::InconsistentSegmentSize));
}

#[test]
fn strip_zeroes_moves_trailing_zeros_into_padding() {
    // A region with flags {read, execute}, five stored bytes of which the
    // last three are zero, and a memory image of ten bytes.
    let bytes = raw_elf64le(0x400000, 62, 2, &[(1, 5, 0x400000, vec![0x90, 0x90, 0x00, 0x00, 0x00], 10)]);
    let mut info = read_elf_file(&bytes).unwrap();
    assert_eq!(info.segments[0].zero_padding, 5);
    let stripped = strip_zeroes(&mut info);
    assert_eq!(stripped, 3);
    assert_eq!(info.segments[0].data, vec![0x90, 0x90]);
    assert_eq!(info.segments[0].zero_padding, 8);
    // The descriptor of the encoded file carries file size 2 and memory
    // size 10, the pre-compaction memory size.
    let out = create_elf_file(&info).unwrap();
    let filesz = u64::from_le_bytes(out[64 + 32..64 + 40].try_into().unwrap());
    let memsz = u64::from_le_bytes(out[64 + 40..64 + 48].try_into().unwrap());
    assert_eq!(filesz, 2);
    assert_eq!(memsz, 10);
}

#[test]
fn strip_zeroes_is_idempotent() {
    let mut info = ElfInfo {
        segments: vec![
            seg(SegmentType::Text, 0x1000, vec![1, 0, 2, 0, 0], 4),
            seg(SegmentType::Data, 0x2000, vec![0, 0, 0], 0),
            seg(SegmentType::RoData, 0x3000, vec![], 7),
        ],
        entry: 0x1000,
        is_64: true,
        endian: Endianness::Little,
        architecture: Architecture::X86_64,
        kind: ObjectKind::Executable,
    };
    let first = strip_zeroes(&mut info);
    assert_eq!(first, 5);
    let snapshot = info.clone();
    let second = strip_zeroes(&mut info);
    assert_eq!(second, 0);
    assert_eq!(info, snapshot);
}

#[test]
fn strip_zeroes_preserves_address_and_size_sum() {
    let mut info = ElfInfo {
        segments: vec![
            seg(SegmentType::Text, 0x1000, vec![9, 9, 0, 0], 6),
            seg(SegmentType::Data, 0x2000, vec![0], 0),
        ],
        entry: 0,
        is_64: true,
        endian: Endianness::Little,
        architecture: Architecture::X86_64,
        kind: ObjectKind::Executable,
    };
    let before: Vec<(u64, u64)> = info
        .segments
        .iter()
        .map(|s| (s.addr, s.data.len() as u64 + s.zero_padding))
        .collect();
    strip_zeroes(&mut info);
    let after: Vec<(u64, u64)> = info
        .segments
        .iter()
        .map(|s| (s.addr, s.data.len() as u64 + s.zero_padding))
        .collect();
    assert_eq!(before, after);
}

#[test]
fn unsupported_kind_is_rejected() {
    let info = ElfInfo {
        segments: vec![],
        entry: 0,
        is_64: true,
        endian: Endianness::Little,
        architecture: Architecture::X86_64,
        kind: ObjectKind::Dynamic,
    };
    assert_eq!(create_elf_file(&info), Err(ElfError::UnsupportedObjectKind));
}

#[test]
fn unsupported_architecture_is_rejected() {
    let info = ElfInfo {
        segments: vec![],
        entry: 0,
        is_64: true,
        endian: Endianness::Little,
        architecture: Architecture::Unknown,
        kind: ObjectKind::Executable,
    };
    assert_eq!(create_elf_file(&info), Err(ElfError::UnsupportedArchitecture));
}

#[test]
fn roundtrip_64_little() {
    let info = ElfInfo {
        segments: vec![
            seg(SegmentType::Text, 0x401000, vec![0x90; 100], 0),
            seg(SegmentType::RoData, 0x403000, vec![], 64),
            seg(SegmentType::Data, 0x402000, vec![1, 2, 3], 4096),
        ],
        entry: 0x401000,
        is_64: true,
        endian: Endianness::Little,
        architecture: Architecture::X86_64,
        kind: ObjectKind::Executable,
    };
    let out = create_elf_file(&info).unwrap();
    let back = read_elf_file(&out).unwrap();
    assert_eq!(back, info);
}

#[test]
fn roundtrip_32_big() {
    let info = ElfInfo {
        segments: vec![
            seg(SegmentType::Text, 0x1000, vec![1, 2, 3, 4, 5], 11),
            seg(SegmentType::Data, 0x2000, vec![6, 7], 0),
        ],
        entry: 0x1004,
        is_64: false,
        endian: Endianness::Big,
        architecture: Architecture::PowerPc,
        kind: ObjectKind::Executable,
    };
    let out = create_elf_file(&info).unwrap();
    let back = read_elf_file(&out).unwrap();
    assert_eq!(back, info);
}

#[test]
fn decode_encode_decode_is_identity() {
    // Starting from raw bytes: decode, re-encode without compaction, and
    // decode again; the second decode gives the same image, even though
    // the physical layout of the file changed.
    let bytes = raw_elf64le(
        0x8000,
        243,
        2,
        &[
            (1, 5, 0x8000, vec![1, 2, 3, 0, 0], 8),
            (1, 7, 0x9000, vec![9], 1), // dropped: read+write+execute
            (1, 4, 0xa000, vec![7, 7, 7, 7], 4),
        ],
    );
    let first = read_elf_file(&bytes).unwrap();
    assert_eq!(first.segments.len(), 2);
    let out = create_elf_file(&first).unwrap();
    assert_ne!(out, bytes);
    let second = read_elf_file(&out).unwrap();
    assert_eq!(second, first);
}

#[test]
fn encoded_layout_is_fixed() {
    let info = ElfInfo {
        segments: vec![seg(SegmentType::Text, 0x1000, vec![0xaa, 0xbb], 0)],
        entry: 0x1000,
        is_64: true,
        endian: Endianness::Little,
        architecture: Architecture::Riscv64,
        kind: ObjectKind::Executable,
    };
    let out = create_elf_file(&info).unwrap();
    // Header, one descriptor, then the content aligned to 64 bytes with
    // nothing after it.
    assert_eq!(&out[0..6], &[0x7f, 0x45, 0x4c, 0x46, 2, 1]);
    assert_eq!(u16::from_le_bytes(out[18..20].try_into().unwrap()), 243); // RISC-V machine
    assert_eq!(u64::from_le_bytes(out[32..40].try_into().unwrap()), 64); // e_phoff
    assert_eq!(u16::from_le_bytes(out[56..58].try_into().unwrap()), 1); // e_phnum
    let p_offset = u64::from_le_bytes(out[64 + 8..64 + 16].try_into().unwrap());
    assert_eq!(p_offset, 128); // first 64-byte boundary past header + table
    assert_eq!(p_offset % 64, 0);
    assert!(out[120..128].iter().all(|b| *b == 0)); // alignment padding
    assert_eq!(&out[128..130], &[0xaa, 0xbb]);
    assert_eq!(out.len(), 130); // no trailing bytes
}

#[test]
fn trailing_empty_segment_is_a_layout_inconsistency() {
    // Space is reserved up to the alignment boundary for a loaded segment
    // with no content, but nothing is emitted for it; at the end of the
    // image the two cursors disagree and encoding must refuse.
    let info = ElfInfo {
        segments: vec![
            seg(SegmentType::Text, 0x1000, vec![1], 0),
            seg(SegmentType::RoData, 0x2000, vec![], 16),
        ],
        entry: 0x1000,
        is_64: true,
        endian: Endianness::Little,
        architecture: Architecture::X86_64,
        kind: ObjectKind::Executable,
    };
    assert_eq!(create_elf_file(&info), Err(ElfError::LayoutInconsistency));
}

#[test]
fn empty_image_is_header_only() {
    let info = ElfInfo {
        segments: vec![],
        entry: 0x77,
        is_64: false,
        endian: Endianness::Little,
        architecture: Architecture::I386,
        kind: ObjectKind::Executable,
    };
    let out = create_elf_file(&info).unwrap();
    assert_eq!(out.len(), 52);
    let back = read_elf_file(&out).unwrap();
    assert_eq!(back, info);
}

#[test]
fn object_crate_reads_encoded_output() {
    let info = ElfInfo {
        segments: vec![
            seg(SegmentType::Text, 0x401000, vec![0x90, 0xc3], 0),
            seg(SegmentType::Data, 0x404000, vec![42; 10], 22),
        ],
        entry: 0x401000,
        is_64: true,
        endian: Endianness::Little,
        architecture: Architecture::X86_64,
        kind: ObjectKind::Executable,
    };
    let out = create_elf_file(&info).unwrap();
    let file = object::File::parse(out.as_slice()).expect("the emitted image must parse");
    assert_eq!(file.entry(), 0x401000);
    assert!(file.is_64());
    assert_eq!(file.architecture(), object::Architecture::X86_64);
    assert_eq!(file.kind(), object::ObjectKind::Executable);
    let segs: Vec<_> = file.segments().collect();
    assert_eq!(segs.len(), 2);
    assert_eq!(segs[0].address(), 0x401000);
    assert_eq!(segs[0].data().unwrap(), &[0x90, 0xc3]);
    assert_eq!(segs[1].address(), 0x404000);
    assert_eq!(segs[1].size(), 32); // ten stored bytes plus 22 of padding
    assert_eq!(segs[1].data().unwrap(), &[42; 10]);
}
