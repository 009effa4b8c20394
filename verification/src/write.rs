//! Encoding of the loadable-image model into a minimal ELF byte buffer.
//!
//! The layout is computed in two phases: first every offset is reserved
//! ([`reserve_cursor`], [`seg_offset`]), then the bytes are emitted —
//! header, one descriptor per segment in order, then each loaded segment's
//! content on a 64-byte boundary.  [`spec_encode`] defines the produced
//! bytes exactly; [`create_elf_file`] is the executable encoder, proved to
//! return exactly what [`spec_encode`] says.

use vstd::prelude::*;
use crate::bytes::{push_bytes, push_word, word_bytes};
use crate::format::{
    align64, align64_up, arch_to_machine, ehdr_size, flags_of_class, machine_of_arch, phent_size,
    word_size, class_flags, CONTENT_ALIGN, ET_EXEC, PT_LOAD, PT_NULL,
};
use crate::{segment_fits, ElfError, ElfInfo, ElfModel, Endianness, ObjectKind, SegmentModel};

verus! {

broadcast use crate::bytes::lemma_word_bytes_len;

/// A sequence of `n` zero bytes.
pub open spec fn zeros(n: int) -> Seq<u8> {
    Seq::new(n as nat, |j: int| 0u8)
}

/// File offset just past the descriptor table: header plus one fixed-size
/// descriptor per segment.
pub open spec fn table_end(m: ElfModel) -> int {
    ehdr_size(m.is_64) + m.segments.len() * phent_size(m.is_64)
}

/// The reserve cursor after reserving space for one segment: a loaded
/// segment is aligned to the content boundary and takes its stored length;
/// any other segment takes no file space.
pub open spec fn reserve_step(c: int, s: SegmentModel) -> int {
    if s.load {
        align64(c) + s.data.len()
    } else {
        c
    }
}

/// The reserve cursor after the first `i` segments, starting from `c`.
pub open spec fn reserve_cursor(segs: Seq<SegmentModel>, i: int, c: int) -> int
    decreases i,
{
    if i <= 0 {
        c
    } else {
        reserve_step(reserve_cursor(segs, i - 1, c), segs[i - 1])
    }
}

/// The file offset recorded for segment `i`: the aligned reserve cursor
/// for a loaded segment, zero for one that takes no file space.
pub open spec fn seg_offset(segs: Seq<SegmentModel>, i: int, c: int) -> int {
    if segs[i].load {
        align64(reserve_cursor(segs, i, c))
    } else {
        0
    }
}

/// The emit cursor after one segment: only a loaded segment with content
/// actually writes bytes (alignment padding, then the content).
pub open spec fn emit_step(c: int, s: SegmentModel) -> int {
    if s.load && s.data.len() > 0 {
        align64(c) + s.data.len()
    } else {
        c
    }
}

/// The emit cursor after the first `i` segments, starting from `c`.
pub open spec fn emit_cursor(segs: Seq<SegmentModel>, i: int, c: int) -> int
    decreases i,
{
    if i <= 0 {
        c
    } else {
        emit_step(emit_cursor(segs, i - 1, c), segs[i - 1])
    }
}

/// The bytes one segment contributes to the content area when the emit
/// cursor stands at `c`.
pub open spec fn seg_chunk(s: SegmentModel, c: int) -> Seq<u8> {
    if s.load && s.data.len() > 0 {
        zeros(align64(c) - c) + s.data
    } else {
        Seq::empty()
    }
}

/// The content area produced by the first `i` segments, starting at `c`.
pub open spec fn spec_body(segs: Seq<SegmentModel>, i: int, c: int) -> Seq<u8>
    decreases i,
{
    if i <= 0 {
        Seq::empty()
    } else {
        spec_body(segs, i - 1, c) + seg_chunk(segs[i - 1], emit_cursor(segs, i - 1, c))
    }
}

/// The file header bytes: ident, then each numeric field in the image's
/// byte order.  The section-related fields are all zero: no section table
/// is ever emitted.
pub open spec fn spec_ehdr(m: ElfModel, mach: u16) -> Seq<u8> {
    let little = m.endian == Endianness::Little;
    let w = word_size(m.is_64) as usize;
    let n = m.segments.len();
    seq![
        0x7fu8,
        0x45u8,
        0x4cu8,
        0x46u8,
        (if m.is_64 { 2u8 } else { 1u8 }),
        (if little { 1u8 } else { 2u8 }),
        1u8,
        0u8,
        0u8,
        0u8,
        0u8,
        0u8,
        0u8,
        0u8,
        0u8,
        0u8,
    ] + word_bytes(ET_EXEC as u64, 2, little) + word_bytes(mach as u64, 2, little) + word_bytes(
        1,
        4,
        little,
    ) + word_bytes(m.entry, w as nat, little) + word_bytes(
        if n == 0 {
            0
        } else {
            ehdr_size(m.is_64) as u64
        },
        w as nat,
        little,
    ) + word_bytes(0, w as nat, little) + word_bytes(0, 4, little) + word_bytes(
        ehdr_size(m.is_64) as u64,
        2,
        little,
    ) + word_bytes(
        if n == 0 {
            0
        } else {
            phent_size(m.is_64) as u64
        },
        2,
        little,
    ) + word_bytes(n as u64, 2, little) + word_bytes(0, 2, little) + word_bytes(0, 2, little)
        + word_bytes(0, 2, little)
}

/// The descriptor bytes of one segment whose recorded file offset is
/// `off`.  The field order differs between the 32- and 64-bit forms.
pub open spec fn spec_phdr(is_64: bool, little: bool, s: SegmentModel, off: int) -> Seq<u8> {
    let ptype = if s.load {
        PT_LOAD as u64
    } else {
        PT_NULL as u64
    };
    let flags = flags_of_class(s.ty) as u64;
    let filesz = if s.load {
        s.data.len() as u64
    } else {
        0
    };
    let memsz = (s.data.len() + s.zero_padding) as u64;
    if is_64 {
        word_bytes(ptype, 4, little) + word_bytes(flags, 4, little) + word_bytes(
            off as u64,
            8,
            little,
        ) + word_bytes(s.addr, 8, little) + word_bytes(s.addr, 8, little) + word_bytes(
            filesz,
            8,
            little,
        ) + word_bytes(memsz, 8, little) + word_bytes(CONTENT_ALIGN, 8, little)
    } else {
        word_bytes(ptype, 4, little) + word_bytes(off as u64, 4, little) + word_bytes(
            s.addr,
            4,
            little,
        ) + word_bytes(s.addr, 4, little) + word_bytes(filesz, 4, little) + word_bytes(
            memsz,
            4,
            little,
        ) + word_bytes(flags, 4, little) + word_bytes(CONTENT_ALIGN, 4, little)
    }
}

/// The descriptor table bytes for the first `i` segments.
pub open spec fn spec_phdr_table(m: ElfModel, i: int) -> Seq<u8>
    decreases i,
{
    if i <= 0 {
        Seq::empty()
    } else {
        spec_phdr_table(m, i - 1) + spec_phdr(
            m.is_64,
            m.endian == Endianness::Little,
            m.segments[i - 1],
            seg_offset(m.segments, i - 1, table_end(m)),
        )
    }
}

/// Whether the bytes the content area actually takes agree with the space
/// reserved for it.  The two can disagree only when the image ends in a
/// loaded segment with no content whose reservation was aligned up.
pub open spec fn layout_consistent(m: ElfModel) -> bool {
    table_end(m) + spec_body(m.segments, m.segments.len() as int, table_end(m)).len()
        == reserve_cursor(m.segments, m.segments.len() as int, table_end(m))
}

/// What encoding an image means: which images are refused with which
/// error, and the exact bytes produced for the rest.
pub open spec fn spec_encode(m: ElfModel) -> Result<Seq<u8>, ElfError> {
    if m.kind != ObjectKind::Executable {
        Err(ElfError::UnsupportedObjectKind)
    } else if machine_of_arch(m.architecture) is None {
        Err(ElfError::UnsupportedArchitecture)
    } else if !layout_consistent(m) {
        Err(ElfError::LayoutInconsistency)
    } else {
        let n = m.segments.len() as int;
        Ok(
            spec_ehdr(m, machine_of_arch(m.architecture)->Some_0) + spec_phdr_table(m, n)
                + spec_body(m.segments, n, table_end(m)),
        )
    }
}

/// What the encoder requires of an image: every segment's memory image
/// size fits in a 64-bit word, the descriptor count fits its 16-bit field,
/// and the whole reserved layout fits in memory.
pub open spec fn encodable(m: ElfModel) -> bool {
    &&& forall|i: int| 0 <= i < m.segments.len() ==> segment_fits(#[trigger] m.segments[i])
    &&& m.segments.len() < 0xffff
    &&& reserve_cursor(m.segments, m.segments.len() as int, table_end(m)) <= usize::MAX
}

/// One reservation never moves the cursor backwards.
proof fn lemma_reserve_step_ge(c: int, s: SegmentModel)
    requires
        c >= 0,
    ensures
        c <= reserve_step(c, s),
        c <= emit_step(c, s),
{
    crate::format::lemma_align64_bounds(c);
}

/// The reserve cursor never moves backwards.
pub proof fn lemma_reserve_cursor_ge(segs: Seq<SegmentModel>, i: int, c: int)
    requires
        0 <= i,
        c >= 0,
    ensures
        c <= reserve_cursor(segs, i, c),
    decreases i,
{
    if i > 0 {
        lemma_reserve_cursor_ge(segs, i - 1, c);
        lemma_reserve_step_ge(reserve_cursor(segs, i - 1, c), segs[i - 1]);
    }
}

/// The reserve cursor is monotone in the number of segments reserved.
pub proof fn lemma_reserve_cursor_mono(segs: Seq<SegmentModel>, i: int, j: int, c: int)
    requires
        0 <= i <= j,
        c >= 0,
    ensures
        reserve_cursor(segs, i, c) <= reserve_cursor(segs, j, c),
    decreases j - i,
{
    if i < j {
        lemma_reserve_cursor_mono(segs, i, j - 1, c);
        lemma_reserve_cursor_ge(segs, j - 1, c);
        lemma_reserve_step_ge(reserve_cursor(segs, j - 1, c), segs[j - 1]);
    }
}

/// The emit cursor never runs ahead of the reserve cursor, and the two
/// agree up to one alignment boundary, so the aligned content offsets of
/// the two phases coincide.
pub proof fn lemma_emit_reserve(segs: Seq<SegmentModel>, i: int, c: int)
    requires
        0 <= i,
        c >= 0,
    ensures
        c <= emit_cursor(segs, i, c),
        emit_cursor(segs, i, c) <= reserve_cursor(segs, i, c),
        reserve_cursor(segs, i, c) <= align64(emit_cursor(segs, i, c)),
    decreases i,
{
    crate::format::lemma_align64_bounds(c);
    if i > 0 {
        lemma_emit_reserve(segs, i - 1, c);
        let e = emit_cursor(segs, i - 1, c);
        let r = reserve_cursor(segs, i - 1, c);
        crate::format::lemma_align64_bounds(e);
        crate::format::lemma_align64_bounds(r);
        crate::format::lemma_align64_mono(e, r);
        crate::format::lemma_align64_mono(r, align64(e));
        crate::format::lemma_align64_bounds(align64(e));
        let s = segs[i - 1];
        if s.load && s.data.len() > 0 {
            assert(align64(r) == align64(e));
        } else if s.load {
            assert(reserve_cursor(segs, i, c) == align64(r));
        }
    }
}

/// The file header has its fixed size.
pub proof fn lemma_spec_ehdr_len(m: ElfModel, mach: u16)
    ensures
        spec_ehdr(m, mach).len() == ehdr_size(m.is_64),
{
    let little = m.endian == Endianness::Little;
    let w = word_size(m.is_64) as nat;
    crate::bytes::lemma_word_bytes_len(ET_EXEC as u64, 2, little);
    crate::bytes::lemma_word_bytes_len(mach as u64, 2, little);
    crate::bytes::lemma_word_bytes_len(1, 4, little);
    crate::bytes::lemma_word_bytes_len(m.entry, w, little);
    crate::bytes::lemma_word_bytes_len(
        if m.segments.len() == 0 {
            0
        } else {
            ehdr_size(m.is_64) as u64
        },
        w,
        little,
    );
    crate::bytes::lemma_word_bytes_len(0, w, little);
    crate::bytes::lemma_word_bytes_len(0, 4, little);
    crate::bytes::lemma_word_bytes_len(ehdr_size(m.is_64) as u64, 2, little);
    crate::bytes::lemma_word_bytes_len(
        if m.segments.len() == 0 {
            0
        } else {
            phent_size(m.is_64) as u64
        },
        2,
        little,
    );
    crate::bytes::lemma_word_bytes_len(m.segments.len() as u64, 2, little);
    crate::bytes::lemma_word_bytes_len(0, 2, little);
}

/// A descriptor has its fixed size.
pub proof fn lemma_spec_phdr_len(is_64: bool, little: bool, s: SegmentModel, off: int)
    ensures
        spec_phdr(is_64, little, s, off).len() == phent_size(is_64),
{
    let ptype = if s.load {
        PT_LOAD as u64
    } else {
        PT_NULL as u64
    };
    let flags = flags_of_class(s.ty) as u64;
    let filesz = if s.load {
        s.data.len() as u64
    } else {
        0
    };
    let memsz = (s.data.len() + s.zero_padding) as u64;
    let n = word_size(is_64) as nat;
    crate::bytes::lemma_word_bytes_len(ptype, 4, little);
    crate::bytes::lemma_word_bytes_len(flags, 4, little);
    crate::bytes::lemma_word_bytes_len(off as u64, n, little);
    crate::bytes::lemma_word_bytes_len(off as u64, 4, little);
    crate::bytes::lemma_word_bytes_len(off as u64, 8, little);
    crate::bytes::lemma_word_bytes_len(s.addr, n, little);
    crate::bytes::lemma_word_bytes_len(s.addr, 4, little);
    crate::bytes::lemma_word_bytes_len(s.addr, 8, little);
    crate::bytes::lemma_word_bytes_len(filesz, 4, little);
    crate::bytes::lemma_word_bytes_len(filesz, 8, little);
    crate::bytes::lemma_word_bytes_len(memsz, 4, little);
    crate::bytes::lemma_word_bytes_len(memsz, 8, little);
    crate::bytes::lemma_word_bytes_len(CONTENT_ALIGN, 4, little);
    crate::bytes::lemma_word_bytes_len(CONTENT_ALIGN, 8, little);
}

/// The descriptor table's size is one fixed record per segment.
pub proof fn lemma_spec_phdr_table_len(m: ElfModel, i: int)
    requires
        0 <= i,
    ensures
        spec_phdr_table(m, i).len() == i * phent_size(m.is_64),
    decreases i,
{
    if i == 0 {
        assert(0 * phent_size(m.is_64) == 0) by (nonlinear_arith);
    } else {
        lemma_spec_phdr_table_len(m, i - 1);
        lemma_spec_phdr_len(
            m.is_64,
            m.endian == Endianness::Little,
            m.segments[i - 1],
            seg_offset(m.segments, i - 1, table_end(m)),
        );
        assert(i * phent_size(m.is_64) == (i - 1) * phent_size(m.is_64) + phent_size(m.is_64))
            by (nonlinear_arith);
    }
}

/// Creates an ELF image in memory from an [`ElfInfo`].
///
/// Only standalone executables with an architecture inside the machine
/// table can be encoded; everything else is refused with the matching
/// error.  On success the produced bytes are exactly [`spec_encode`]'s:
/// header, one descriptor per segment in order, then each loaded segment's
/// content on a 64-byte boundary, with nothing else in the file.
#[verifier::rlimit(100)]
pub fn create_elf_file(info: &ElfInfo) -> (r: Result<Vec<u8>, ElfError>)
    requires
        encodable(info@),
    ensures
        (match r {
            Ok(v) => spec_encode(info@) == Ok::<Seq<u8>, ElfError>(v@),
            Err(e) => spec_encode(info@) == Err::<Seq<u8>, ElfError>(e),
        }),
{
    let ghost m = info@;
    let ghost segs = m.segments;
    if info.kind != ObjectKind::Executable {
        return Err(ElfError::UnsupportedObjectKind);
    }
    let mach = match arch_to_machine(info.architecture) {
        Some(mc) => mc,
        None => {
            return Err(ElfError::UnsupportedArchitecture);
        },
    };
    let is_64 = info.is_64;
    let little = info.endian == Endianness::Little;
    let n = info.segments.len();
    let ehsz: u64 = if is_64 {
        64
    } else {
        52
    };
    let phent: u64 = if is_64 {
        56
    } else {
        32
    };
    let wsz: usize = if is_64 {
        8
    } else {
        4
    };
    proof {
        vstd::arithmetic::mul::lemma_mul_upper_bound(n as int, 0xfffe, phent as int, 56);
    }
    let base: u64 = ehsz + (n as u64) * phent;
    assert(base == table_end(m));
    let ghost ibase = base as int;

    // Phase one: reserve, recording every content offset.
    let mut offsets: Vec<u64> = Vec::new();
    let mut cursor: u64 = base;
    let mut i: usize = 0;
    while i < n
        invariant
            m == info@,
            segs == m.segments,
            n == segs.len(),
            encodable(m),
            ibase == base as int,
            base == table_end(m),
            0 <= i <= n,
            offsets@.len() == i,
            forall|j: int| 0 <= j < i ==> offsets@[j] == seg_offset(segs, j, ibase),
            cursor == reserve_cursor(segs, i as int, ibase),
        decreases n - i,
    {
        proof {
            lemma_reserve_cursor_ge(segs, i as int, ibase);
            lemma_reserve_cursor_mono(segs, i + 1, n as int, ibase);
            crate::format::lemma_align64_bounds(cursor as int);
        }
        let seg = &info.segments[i];
        if seg.load {
            let aligned = align64_up(cursor);
            offsets.push(aligned);
            cursor = aligned + seg.data.len() as u64;
        } else {
            offsets.push(0);
        }
        i = i + 1;
    }

    // Phase two: emit the header.
    let mut out: Vec<u8> = Vec::new();
    out.push(0x7f);
    out.push(0x45);
    out.push(0x4c);
    out.push(0x46);
    out.push(if is_64 {
        2
    } else {
        1
    });
    out.push(if little {
        1
    } else {
        2
    });
    out.push(1);
    out.push(0);
    out.push(0);
    out.push(0);
    out.push(0);
    out.push(0);
    out.push(0);
    out.push(0);
    out.push(0);
    out.push(0);
    let ghost ident = seq![
        0x7fu8,
        0x45u8,
        0x4cu8,
        0x46u8,
        (if m.is_64 { 2u8 } else { 1u8 }),
        (if little { 1u8 } else { 2u8 }),
        1u8,
        0u8,
        0u8,
        0u8,
        0u8,
        0u8,
        0u8,
        0u8,
        0u8,
        0u8,
    ];
    assert(out@ =~= ident);
    push_word(&mut out, ET_EXEC as u64, 2, little);
    push_word(&mut out, mach as u64, 2, little);
    push_word(&mut out, 1, 4, little);
    push_word(&mut out, info.entry, wsz, little);
    push_word(
        &mut out,
        if n == 0 {
            0
        } else {
            ehsz
        },
        wsz,
        little,
    );
    push_word(&mut out, 0, wsz, little);
    push_word(&mut out, 0, 4, little);
    push_word(&mut out, ehsz, 2, little);
    push_word(
        &mut out,
        if n == 0 {
            0
        } else {
            phent
        },
        2,
        little,
    );
    push_word(&mut out, n as u64, 2, little);
    push_word(&mut out, 0, 2, little);
    push_word(&mut out, 0, 2, little);
    push_word(&mut out, 0, 2, little);
    assert(out@ =~= spec_ehdr(m, mach));
    proof {
        lemma_spec_ehdr_len(m, mach);
        assert(out@ =~= spec_ehdr(m, mach) + spec_phdr_table(m, 0int));
    }

    // Emit one descriptor per segment, in order.
    let mut i: usize = 0;
    while i < n
        invariant
            m == info@,
            segs == m.segments,
            n == segs.len(),
            encodable(m),
            ibase == base as int,
            base == table_end(m),
            is_64 == m.is_64,
            little == (m.endian == Endianness::Little),
            wsz == word_size(is_64),
            phent == phent_size(is_64),
            mach == machine_of_arch(m.architecture)->Some_0,
            0 <= i <= n,
            offsets@.len() == n,
            forall|j: int| 0 <= j < n ==> offsets@[j] == seg_offset(segs, j, ibase),
            cursor == reserve_cursor(segs, n as int, ibase),
            out@ == spec_ehdr(m, mach) + spec_phdr_table(m, i as int),
        decreases n - i,
    {
        let ghost pre = out@;
        let seg = &info.segments[i];
        let off = offsets[i];
        let ptype: u64 = if seg.load {
            PT_LOAD as u64
        } else {
            PT_NULL as u64
        };
        let flags: u64 = class_flags(seg.ty) as u64;
        let filesz: u64 = if seg.load {
            seg.data.len() as u64
        } else {
            0
        };
        assert(segment_fits(segs[i as int]));
        let memsz: u64 = seg.data.len() as u64 + seg.zero_padding;
        if is_64 {
            push_word(&mut out, ptype, 4, little);
            push_word(&mut out, flags, 4, little);
            push_word(&mut out, off, 8, little);
            push_word(&mut out, seg.addr, 8, little);
            push_word(&mut out, seg.addr, 8, little);
            push_word(&mut out, filesz, 8, little);
            push_word(&mut out, memsz, 8, little);
            push_word(&mut out, CONTENT_ALIGN, 8, little);
        } else {
            push_word(&mut out, ptype, 4, little);
            push_word(&mut out, off, 4, little);
            push_word(&mut out, seg.addr, 4, little);
            push_word(&mut out, seg.addr, 4, little);
            push_word(&mut out, filesz, 4, little);
            push_word(&mut out, memsz, 4, little);
            push_word(&mut out, flags, 4, little);
            push_word(&mut out, CONTENT_ALIGN, 4, little);
        }
        proof {
            assert(out@ =~= pre + spec_phdr(is_64, little, segs[i as int], seg_offset(
                segs,
                i as int,
                ibase,
            )));
            assert(out@ =~= spec_ehdr(m, mach) + spec_phdr_table(m, i + 1));
        }
        i = i + 1;
    }
    proof {
        lemma_spec_phdr_table_len(m, n as int);
        assert(out@ =~= spec_ehdr(m, mach) + spec_phdr_table(m, n as int) + spec_body(
            segs,
            0int,
            ibase,
        ));
    }

    // Emit each loaded segment's content on its boundary.
    let mut i: usize = 0;
    while i < n
        invariant
            m == info@,
            segs == m.segments,
            n == segs.len(),
            encodable(m),
            ibase == base as int,
            base == table_end(m),
            mach == machine_of_arch(m.architecture)->Some_0,
            0 <= i <= n,
            offsets@.len() == n,
            forall|j: int| 0 <= j < n ==> offsets@[j] == seg_offset(segs, j, ibase),
            cursor == reserve_cursor(segs, n as int, ibase),
            out@ == spec_ehdr(m, mach) + spec_phdr_table(m, n as int) + spec_body(
                segs,
                i as int,
                ibase,
            ),
            out@.len() == emit_cursor(segs, i as int, ibase),
        decreases n - i,
    {
        let ghost pre = out@;
        proof {
            lemma_emit_reserve(segs, i as int, ibase);
            lemma_emit_reserve(segs, i + 1, ibase);
            lemma_reserve_cursor_mono(segs, i + 1, n as int, ibase);
            crate::format::lemma_align64_bounds(emit_cursor(segs, i as int, ibase));
        }
        let seg = &info.segments[i];
        if seg.load && seg.data.len() > 0 {
            let cur = out.len() as u64;
            let target = align64_up(cur);
            let pad = (target - cur) as usize;
            let mut j: usize = 0;
            while j < pad
                invariant
                    0 <= j <= pad,
                    out@ == pre + zeros(j as int),
                decreases pad - j,
            {
                out.push(0);
                assert(pre + zeros(j + 1) =~= (pre + zeros(j as int)).push(0u8));
                j = j + 1;
            }
            push_bytes(&mut out, info.segments[i].data.as_slice());
            proof {
                assert(out@ =~= pre + seg_chunk(segs[i as int], emit_cursor(segs, i as int, ibase)));
                assert(out@ =~= spec_ehdr(m, mach) + spec_phdr_table(m, n as int) + spec_body(
                    segs,
                    i + 1,
                    ibase,
                ));
            }
        } else {
            assert(out@ =~= pre + seg_chunk(segs[i as int], emit_cursor(segs, i as int, ibase)));
            assert(out@ =~= spec_ehdr(m, mach) + spec_phdr_table(m, n as int) + spec_body(
                segs,
                i + 1,
                ibase,
            ));
        }
        i = i + 1;
    }

    // Everything reserved must have been emitted.
    let total = out.len() as u64;
    if total != cursor {
        return Err(ElfError::LayoutInconsistency);
    }
    assert(layout_consistent(m));
    Ok(out)
}

} // verus!
