//! The encode/decode round trip.
//!
//! Encoding an image and decoding the produced bytes gives the image back,
//! provided the image is of the decoded shape: an executable whose
//! architecture agrees with its word width, whose segments are all loaded,
//! and whose addresses and sizes fit the word width's fields.

use vstd::prelude::*;
use crate::bytes::{lemma_pow256_8, lemma_pow256_mono, lemma_word_roundtrip, pow256, word_bytes, word_val};
use crate::format::{
    align64, arch_of_machine, arch_matches_width, class_of_flags, ehdr_size, flags_of_class,
    kind_of_type, lemma_align64_bounds, machine_of_arch, phent_size, word_size, PT_LOAD,
};
use crate::read::{
    decoded_segment, h_entry, h_is_64, h_little, h_machine, h_phnum, h_phoff, h_type, header_ok,
    ph_base, ph_filesz, ph_flags, ph_memsz, ph_offset, ph_type, ph_vaddr, spec_decode,
    spec_decode_segs,
};
use crate::write::{
    emit_cursor, layout_consistent, lemma_emit_reserve, lemma_reserve_cursor_ge,
    lemma_reserve_cursor_mono, lemma_spec_ehdr_len, lemma_spec_phdr_len, lemma_spec_phdr_table_len,
    reserve_cursor, seg_chunk, seg_offset, spec_body, spec_ehdr, spec_encode, spec_phdr,
    spec_phdr_table, table_end, zeros,
};
use crate::{segment_fits, ElfError, ElfModel, Endianness, ObjectKind, SegmentModel};

verus! {

broadcast use crate::bytes::lemma_word_bytes_len;

/// A segment of the shape the decoder produces, whose fields fit the
/// image's word width.
pub open spec fn seg_round_trippable(s: SegmentModel, is_64: bool) -> bool {
    &&& s.load
    &&& segment_fits(s)
    &&& s.addr < pow256(word_size(is_64) as nat)
    &&& s.data.len() + s.zero_padding < pow256(word_size(is_64) as nat)
}

/// An image that survives the encode/decode round trip: an executable
/// whose architecture agrees with its word width, whose segments are all
/// loaded and fit their fields, whose entry and layout fit the word width,
/// and whose reserved layout is emitted in full.
pub open spec fn round_trippable(m: ElfModel) -> bool {
    &&& m.kind == ObjectKind::Executable
    &&& arch_matches_width(m.architecture, m.is_64)
    &&& m.segments.len() < 0xffff
    &&& forall|i: int|
        0 <= i < m.segments.len() ==> seg_round_trippable(#[trigger] m.segments[i], m.is_64)
    &&& m.entry < pow256(word_size(m.is_64) as nat)
    &&& reserve_cursor(m.segments, m.segments.len() as int, table_end(m)) < pow256(
        word_size(m.is_64) as nat,
    )
    &&& layout_consistent(m)
}

/// The content area's length is the distance the emit cursor travels.
proof fn lemma_body_len(segs: Seq<SegmentModel>, i: int, c: int)
    requires
        0 <= i,
        c >= 0,
    ensures
        spec_body(segs, i, c).len() == emit_cursor(segs, i, c) - c,
    decreases i,
{
    if i > 0 {
        lemma_body_len(segs, i - 1, c);
        lemma_emit_reserve(segs, i - 1, c);
        lemma_align64_bounds(emit_cursor(segs, i - 1, c));
    }
}

/// Every field of the file header reads back as written.
#[verifier::rlimit(100)]
#[verifier::spinoff_prover]
proof fn lemma_header_decode(m: ElfModel, mach: u16, out: Seq<u8>)
    requires
        round_trippable(m),
        machine_of_arch(m.architecture) == Some(mach),
        out == spec_ehdr(m, mach) + spec_phdr_table(m, m.segments.len() as int) + spec_body(
            m.segments,
            m.segments.len() as int,
            table_end(m),
        ),
    ensures
        out.len() == reserve_cursor(m.segments, m.segments.len() as int, table_end(m)),
        header_ok(out),
        h_is_64(out) == m.is_64,
        h_little(out) == (m.endian == Endianness::Little),
        h_type(out) == 2,
        h_machine(out) == mach,
        h_entry(out) == m.entry,
        h_phoff(out) == if m.segments.len() == 0 {
            0int
        } else {
            ehdr_size(m.is_64)
        },
        h_phnum(out) == m.segments.len(),
{
    let n = m.segments.len() as int;
    let little = m.endian == Endianness::Little;
    let w = word_size(m.is_64);
    let base = table_end(m);
    let ehdr = spec_ehdr(m, mach);
    let table = spec_phdr_table(m, n);
    let body = spec_body(m.segments, n, base);
    lemma_spec_ehdr_len(m, mach);
    lemma_spec_phdr_table_len(m, n);
    lemma_body_len(m.segments, n, base);
    lemma_reserve_cursor_ge(m.segments, n, base);
    lemma_pow256_8();
    lemma_pow256_mono(2, w as nat);
    lemma_pow256_mono(4, w as nat);

    assert(out[4] == ehdr[4]);
    assert(out[5] == ehdr[5]);
    assert(h_is_64(out) == m.is_64);
    assert(h_little(out) == little);

    let phoff_val: u64 = if n == 0 {
        0
    } else {
        ehdr_size(m.is_64) as u64
    };
    assert(out.subrange(16, 18) =~= word_bytes(2, 2, little));
    assert(out.subrange(18, 20) =~= word_bytes(mach as u64, 2, little));
    assert(out.subrange(24, 24 + w) =~= word_bytes(m.entry, w as nat, little));
    let po = if m.is_64 {
        32int
    } else {
        28
    };
    assert(out.subrange(po, po + w) =~= word_bytes(phoff_val, w as nat, little));
    let pn = if m.is_64 {
        56int
    } else {
        44
    };
    assert(out.subrange(pn, pn + 2) =~= word_bytes(m.segments.len() as u64, 2, little));

    lemma_word_roundtrip(2, 2, little);
    lemma_word_roundtrip(mach as u64, 2, little);
    lemma_word_roundtrip(m.entry, w as nat, little);
    lemma_word_roundtrip(phoff_val, w as nat, little);
    lemma_word_roundtrip(m.segments.len() as u64, 2, little);

    assert(h_phoff(out) + h_phnum(out) * phent_size(m.is_64) <= out.len()) by {
        assert(out.len() == base + (emit_cursor(m.segments, n, base) - base));
        assert(h_phnum(out) == n);
        if n == 0 {
        }
    }
}

/// Each descriptor reads back field by field as written.
#[verifier::rlimit(100)]
#[verifier::spinoff_prover]
proof fn lemma_phdr_fields(is_64: bool, little: bool, s: SegmentModel, off: int)
    requires
        seg_round_trippable(s, is_64),
        0 <= off < pow256(word_size(is_64) as nat),
    ensures
        ({
            let p = spec_phdr(is_64, little, s, off);
            let w = word_size(is_64);
            &&& word_val(p.subrange(0, 4), little) == PT_LOAD
            &&& word_val(
                p.subrange(
                    if is_64 {
                        4int
                    } else {
                        24
                    },
                    (if is_64 {
                        4int
                    } else {
                        24
                    }) + 4,
                ),
                little,
            ) == flags_of_class(s.ty)
            &&& word_val(
                p.subrange(
                    if is_64 {
                        8int
                    } else {
                        4
                    },
                    (if is_64 {
                        8int
                    } else {
                        4
                    }) + w,
                ),
                little,
            ) == off
            &&& word_val(
                p.subrange(
                    if is_64 {
                        16int
                    } else {
                        8
                    },
                    (if is_64 {
                        16int
                    } else {
                        8
                    }) + w,
                ),
                little,
            ) == s.addr
            &&& word_val(
                p.subrange(
                    if is_64 {
                        32int
                    } else {
                        16
                    },
                    (if is_64 {
                        32int
                    } else {
                        16
                    }) + w,
                ),
                little,
            ) == s.data.len()
            &&& word_val(
                p.subrange(
                    if is_64 {
                        40int
                    } else {
                        20
                    },
                    (if is_64 {
                        40int
                    } else {
                        20
                    }) + w,
                ),
                little,
            ) == s.data.len() + s.zero_padding
        }),
{
    let p = spec_phdr(is_64, little, s, off);
    let w = word_size(is_64);
    let flags = flags_of_class(s.ty) as u64;
    let filesz = s.data.len() as u64;
    let memsz = (s.data.len() + s.zero_padding) as u64;
    lemma_pow256_8();
    lemma_pow256_mono(4, w as nat);
    assert(p.subrange(0, 4) =~= word_bytes(PT_LOAD as u64, 4, little));
    lemma_word_roundtrip(PT_LOAD as u64, 4, little);
    if is_64 {
        assert(p.subrange(4, 8) =~= word_bytes(flags, 4, little));
        assert(p.subrange(8, 8 + w) =~= word_bytes(off as u64, w as nat, little));
        assert(p.subrange(16, 16 + w) =~= word_bytes(s.addr, w as nat, little));
        assert(p.subrange(32, 32 + w) =~= word_bytes(filesz, w as nat, little));
        assert(p.subrange(40, 40 + w) =~= word_bytes(memsz, w as nat, little));
    } else {
        assert(p.subrange(24, 28) =~= word_bytes(flags, 4, little));
        assert(p.subrange(4, 4 + w) =~= word_bytes(off as u64, w as nat, little));
        assert(p.subrange(8, 8 + w) =~= word_bytes(s.addr, w as nat, little));
        assert(p.subrange(16, 16 + w) =~= word_bytes(filesz, w as nat, little));
        assert(p.subrange(20, 20 + w) =~= word_bytes(memsz, w as nat, little));
    }
    lemma_word_roundtrip(flags, 4, little);
    lemma_word_roundtrip(off as u64, w as nat, little);
    lemma_word_roundtrip(s.addr, w as nat, little);
    lemma_word_roundtrip(filesz, w as nat, little);
    lemma_word_roundtrip(memsz, w as nat, little);
}

/// Descriptor `i` sits at its slot of the descriptor table.
proof fn lemma_table_extract(m: ElfModel, i: int, j: int)
    requires
        0 <= i < j <= m.segments.len(),
    ensures
        spec_phdr_table(m, j).subrange(
            i * phent_size(m.is_64),
            (i + 1) * phent_size(m.is_64),
        ) == spec_phdr(
            m.is_64,
            m.endian == Endianness::Little,
            m.segments[i],
            seg_offset(m.segments, i, table_end(m)),
        ),
    decreases j,
{
    let ph = phent_size(m.is_64);
    lemma_spec_phdr_table_len(m, j);
    lemma_spec_phdr_table_len(m, j - 1);
    lemma_spec_phdr_len(
        m.is_64,
        m.endian == Endianness::Little,
        m.segments[j - 1],
        seg_offset(m.segments, j - 1, table_end(m)),
    );
    assert((j - 1) * ph == j * ph - ph) by (nonlinear_arith);
    assert((i + 1) * ph <= j * ph && 0 <= i * ph) by (nonlinear_arith)
        requires
            0 <= i < j,
            ph > 0,
            (i + 1) * ph >= 0,
    {
        vstd::arithmetic::mul::lemma_mul_inequality(i + 1, j, ph);
        vstd::arithmetic::mul::lemma_mul_nonnegative(i, ph);
    }
    if i == j - 1 {
        assert(spec_phdr_table(m, j).subrange(i * ph, (i + 1) * ph) =~= spec_phdr(
            m.is_64,
            m.endian == Endianness::Little,
            m.segments[i],
            seg_offset(m.segments, i, table_end(m)),
        ));
    } else {
        lemma_table_extract(m, i, j - 1);
        assert(spec_phdr_table(m, j).subrange(i * ph, (i + 1) * ph) =~= spec_phdr_table(
            m,
            j - 1,
        ).subrange(i * ph, (i + 1) * ph));
    }
}

/// The content of loaded segment `i` sits exactly at its recorded offset.
proof fn lemma_body_extract(segs: Seq<SegmentModel>, i: int, j: int, c: int)
    requires
        0 <= i < j <= segs.len(),
        c >= 0,
        segs[i].load,
        segs[i].data.len() > 0,
    ensures
        align64(emit_cursor(segs, i, c)) + segs[i].data.len() <= c + spec_body(segs, j, c).len(),
        spec_body(segs, j, c).subrange(
            align64(emit_cursor(segs, i, c)) - c,
            align64(emit_cursor(segs, i, c)) - c + segs[i].data.len(),
        ) == segs[i].data,
    decreases j,
{
    let e = emit_cursor(segs, i, c);
    lemma_emit_reserve(segs, i, c);
    lemma_align64_bounds(e);
    lemma_body_len(segs, j, c);
    lemma_body_len(segs, j - 1, c);
    lemma_body_len(segs, i, c);
    lemma_emit_reserve(segs, j - 1, c);
    if i == j - 1 {
        assert(spec_body(segs, j, c) == spec_body(segs, i, c) + seg_chunk(segs[i], e));
        assert(seg_chunk(segs[i], e) == zeros(align64(e) - e) + segs[i].data);
        assert(spec_body(segs, j, c).subrange(align64(e) - c, align64(e) - c + segs[i].data.len())
            =~= segs[i].data);
    } else {
        lemma_body_extract(segs, i, j - 1, c);
        assert(spec_body(segs, j, c).subrange(align64(e) - c, align64(e) - c + segs[i].data.len())
            =~= spec_body(segs, j - 1, c).subrange(
            align64(e) - c,
            align64(e) - c + segs[i].data.len(),
        ));
    }
}

/// Decoding the descriptors from `i` onward gives back exactly the
/// segments from `i` onward.
#[verifier::rlimit(100)]
#[verifier::spinoff_prover]
proof fn lemma_segs_decode(m: ElfModel, mach: u16, out: Seq<u8>, i: int)
    requires
        round_trippable(m),
        machine_of_arch(m.architecture) == Some(mach),
        out == spec_ehdr(m, mach) + spec_phdr_table(m, m.segments.len() as int) + spec_body(
            m.segments,
            m.segments.len() as int,
            table_end(m),
        ),
        out.len() == reserve_cursor(m.segments, m.segments.len() as int, table_end(m)),
        h_is_64(out) == m.is_64,
        h_little(out) == (m.endian == Endianness::Little),
        h_phoff(out) == if m.segments.len() == 0 {
            0int
        } else {
            ehdr_size(m.is_64)
        },
        h_phnum(out) == m.segments.len(),
        0 <= i <= m.segments.len(),
    ensures
        spec_decode_segs(out, i) == Ok::<Seq<SegmentModel>, ElfError>(m.segments.skip(i)),
    decreases m.segments.len() - i,
{
    let segs = m.segments;
    let n = segs.len() as int;
    let little = m.endian == Endianness::Little;
    let w = word_size(m.is_64);
    let ph = phent_size(m.is_64);
    let ehsz = ehdr_size(m.is_64);
    let base = table_end(m);
    lemma_spec_ehdr_len(m, mach);
    lemma_spec_phdr_table_len(m, n);
    lemma_pow256_8();
    lemma_pow256_mono(4, w as nat);
    if i == n {
        assert(segs.skip(n) =~= Seq::<SegmentModel>::empty());
    } else {
        let s = segs[i];
        assert(seg_round_trippable(s, m.is_64));
        let pb = ph_base(out, i);
        assert(pb == ehsz + i * ph);
        vstd::arithmetic::mul::lemma_mul_inequality(i + 1, n, ph);
        vstd::arithmetic::mul::lemma_mul_nonnegative(i, ph);
        assert((i + 1) * ph == i * ph + ph) by (nonlinear_arith);
        lemma_table_extract(m, i, n);
        let p = spec_phdr(m.is_64, little, s, seg_offset(segs, i, base));
        lemma_spec_phdr_len(m.is_64, little, s, seg_offset(segs, i, base));
        lemma_reserve_cursor_ge(segs, i, base);
        lemma_reserve_cursor_mono(segs, i + 1, n, base);
        lemma_emit_reserve(segs, i, base);
        lemma_emit_reserve(segs, i + 1, base);
        let e = emit_cursor(segs, i, base);
        let rc = reserve_cursor(segs, i, base);
        lemma_align64_bounds(e);
        lemma_align64_bounds(rc);
        crate::format::lemma_align64_mono(e, rc);
        crate::format::lemma_align64_mono(rc, align64(e));
        lemma_align64_bounds(align64(e));
        assert(align64(rc) == align64(e));
        let off = seg_offset(segs, i, base);
        assert(off == align64(rc));
        assert(align64(rc) <= reserve_cursor(segs, i + 1, base));
        assert(0 <= off < pow256(w as nat));
        lemma_phdr_fields(m.is_64, little, s, off);

        assert(out.subrange(pb, pb + ph) =~= spec_phdr_table(m, n).subrange(
            i * ph,
            (i + 1) * ph,
        ));
        assert(out.subrange(pb, pb + 4) =~= p.subrange(0, 4));
        let fo = pb + if m.is_64 {
            4int
        } else {
            24
        };
        let ro = if m.is_64 {
            4int
        } else {
            24
        };
        assert(out.subrange(fo, fo + 4) =~= p.subrange(ro, ro + 4));
        let oo = if m.is_64 {
            8int
        } else {
            4
        };
        assert(out.subrange(pb + oo, pb + oo + w) =~= p.subrange(oo, oo + w));
        let vo = if m.is_64 {
            16int
        } else {
            8
        };
        assert(out.subrange(pb + vo, pb + vo + w) =~= p.subrange(vo, vo + w));
        let so = if m.is_64 {
            32int
        } else {
            16
        };
        assert(out.subrange(pb + so, pb + so + w) =~= p.subrange(so, so + w));
        let mo = if m.is_64 {
            40int
        } else {
            20
        };
        assert(out.subrange(pb + mo, pb + mo + w) =~= p.subrange(mo, mo + w));

        assert(ph_type(out, i) == PT_LOAD);
        assert(ph_flags(out, i) == flags_of_class(s.ty));
        assert(ph_offset(out, i) == off);
        assert(ph_vaddr(out, i) == s.addr);
        assert(ph_filesz(out, i) == s.data.len());
        assert(ph_memsz(out, i) == s.data.len() + s.zero_padding);

        assert(class_of_flags(ph_flags(out, i) as u32) == Some(s.ty)) by {
            crate::format::lemma_class_roundtrip(s.ty);
        }
        assert(ph_offset(out, i) + ph_filesz(out, i) <= out.len());

        assert(out.subrange(off, off + s.data.len() as int) == s.data) by {
            if s.data.len() > 0 {
                lemma_body_extract(segs, i, n, base);
                lemma_body_len(segs, n, base);
                assert(out.subrange(off, off + s.data.len() as int) =~= spec_body(
                    segs,
                    n,
                    base,
                ).subrange(align64(e) - base, align64(e) - base + s.data.len()));
            } else {
                assert(out.subrange(off, off) =~= s.data);
            }
        }
        assert(decoded_segment(out, i) =~= s);

        lemma_segs_decode(m, mach, out, i + 1);
        assert(seq![s] + segs.skip(i + 1) =~= segs.skip(i));
    }
}

/// The segments decoded from descriptors `i` onward all have the decoded
/// shape: loaded, consistent, and with fields that fit the word width.
proof fn lemma_decoded_segs_shape(b: Seq<u8>, i: int, segs: Seq<SegmentModel>)
    requires
        header_ok(b),
        0 <= i,
        spec_decode_segs(b, i) == Ok::<Seq<SegmentModel>, ElfError>(segs),
    ensures
        forall|j: int|
            0 <= j < segs.len() ==> seg_round_trippable(#[trigger] segs[j], h_is_64(b)),
        i <= h_phnum(b) ==> segs.len() <= h_phnum(b) - i,
    decreases h_phnum(b) - i,
{
    let w = word_size(h_is_64(b));
    let ph = phent_size(h_is_64(b));
    lemma_pow256_8();
    lemma_pow256_mono(w as nat, 8);
    let po = if h_is_64(b) {
        32int
    } else {
        28
    };
    crate::bytes::lemma_word_val_bound(b.subrange(po, po + w), h_little(b));
    if i >= h_phnum(b) {
    } else {
        vstd::arithmetic::mul::lemma_mul_inequality(i + 1, h_phnum(b), ph);
        vstd::arithmetic::mul::lemma_mul_nonnegative(i, ph);
        assert((i + 1) * ph == i * ph + ph) by (nonlinear_arith);
        if ph_type(b, i) != PT_LOAD || class_of_flags(ph_flags(b, i) as u32) is None {
            lemma_decoded_segs_shape(b, i + 1, segs);
        } else {
            let rest = spec_decode_segs(b, i + 1)->Ok_0;
            lemma_decoded_segs_shape(b, i + 1, rest);
            let s = decoded_segment(b, i);
            assert(segs == seq![s] + rest);
            let pb = ph_base(b, i);
            let vo = pb + if h_is_64(b) {
                16int
            } else {
                8
            };
            let so = pb + if h_is_64(b) {
                32int
            } else {
                16
            };
            let mo = pb + if h_is_64(b) {
                40int
            } else {
                20
            };
            let oo = pb + if h_is_64(b) {
                8int
            } else {
                4
            };
            crate::bytes::lemma_word_val_bound(b.subrange(oo, oo + w), h_little(b));
            crate::bytes::lemma_word_val_bound(b.subrange(vo, vo + w), h_little(b));
            crate::bytes::lemma_word_val_bound(b.subrange(so, so + w), h_little(b));
            crate::bytes::lemma_word_val_bound(b.subrange(mo, mo + w), h_little(b));
            assert(s.data.len() == ph_filesz(b, i));
            assert(s.data.len() + s.zero_padding == ph_memsz(b, i));
            assert(seg_round_trippable(s, h_is_64(b)));
            assert(forall|j: int| 1 <= j < segs.len() ==> segs[j] == rest[j - 1]);
        }
    }
}

/// What the decoder produces already has the decoded shape: every image
/// that `spec_decode` returns satisfies the per-segment round-trip
/// conditions, its entry fits the word width, its descriptor count fits
/// its field, and its architecture, when recognized at all, agrees with
/// the word width.
pub proof fn lemma_decoded_image_shape(b: Seq<u8>, m: ElfModel)
    requires
        spec_decode(b) == Ok::<ElfModel, ElfError>(m),
    ensures
        forall|i: int|
            0 <= i < m.segments.len() ==> seg_round_trippable(#[trigger] m.segments[i], m.is_64),
        m.entry < pow256(word_size(m.is_64) as nat),
        m.segments.len() < 0x10000,
        m.architecture != crate::Architecture::Unknown ==> arch_matches_width(
            m.architecture,
            m.is_64,
        ),
{
    let w = word_size(h_is_64(b));
    lemma_pow256_8();
    lemma_pow256_mono(2, w as nat);
    lemma_pow256_mono(w as nat, 8);
    lemma_decoded_segs_shape(b, 0, m.segments);
    crate::bytes::lemma_word_val_bound(b.subrange(24, 24 + w), h_little(b));
    let pn = if h_is_64(b) {
        56int
    } else {
        44
    };
    crate::bytes::lemma_word_val_bound(b.subrange(pn, pn + 2), h_little(b));
    crate::format::lemma_machine_roundtrip(h_machine(b) as u16, h_is_64(b));
}

/// Round trip without compaction: encoding an image of the decoded shape
/// succeeds, and decoding the produced file gives an image with the same
/// entry, word width, byte order, architecture and kind, and the same
/// segments — address, class, content and padding alike, in the same
/// order.
pub proof fn lemma_encode_decode_roundtrip(m: ElfModel)
    requires
        round_trippable(m),
    ensures
        spec_encode(m) is Ok,
        spec_decode(spec_encode(m)->Ok_0) == Ok::<ElfModel, ElfError>(m),
{
    let mach = machine_of_arch(m.architecture)->Some_0;
    let n = m.segments.len() as int;
    let out = spec_ehdr(m, mach) + spec_phdr_table(m, n) + spec_body(
        m.segments,
        n,
        table_end(m),
    );
    assert(spec_encode(m) == Ok::<Seq<u8>, ElfError>(out));
    lemma_header_decode(m, mach, out);
    lemma_segs_decode(m, mach, out, 0);
    assert(m.segments.skip(0) =~= m.segments);
    lemma_pow256_8();
    lemma_pow256_mono(2, word_size(m.is_64) as nat);
    assert(h_machine(out) as u16 == mach);
    assert(arch_of_machine(h_machine(out) as u16, h_is_64(out)) == m.architecture);
    assert(kind_of_type(h_type(out) as u16) == ObjectKind::Executable);
    assert(spec_decode(out) is Ok);
    assert(spec_decode(out)->Ok_0 =~= m);
}

} // verus!
