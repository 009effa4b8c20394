//! Repacking of loadable program images.
//!
//! The library decodes an ELF byte buffer into an in-memory model of its
//! loadable segments ([`read::read_elf_file`]), strips trailing zero bytes
//! from each segment's stored content while keeping the memory image size
//! unchanged ([`strip_zeroes`]), and encodes the model back into a minimal
//! ELF image ([`write::create_elf_file`]).

use vstd::prelude::*;

pub mod bytes;
pub mod format;
pub mod read;
pub mod roundtrip;
pub mod write;

verus! {

/// A virtual address.
pub type Addr = u64;

/// The semantic role of a loadable segment, derived from its permission
/// flags: read+execute is `Text`, read+write is `Data`, read alone is
/// `RoData`.  Any other flag combination is not representable and such
/// segments are dropped at decode time.
#[derive(Debug, Clone, Copy, PartialEq, Eq, Structural)]
pub enum SegmentType {
    Text,
    Data,
    RoData,
}

/// Byte order of every numeric field of the image.
#[derive(Debug, Clone, Copy, PartialEq, Eq, Structural)]
pub enum Endianness {
    Little,
    Big,
}

/// Instruction-set identifier of the image.  `Unknown` stands for any
/// machine value outside the recognized table; such an image can be
/// decoded but not encoded.
#[derive(Debug, Clone, Copy, PartialEq, Eq, Structural)]
pub enum Architecture {
    Aarch64,
    Arm,
    Avr,
    Bpf,
    Hexagon,
    I386,
    LoongArch64,
    Mips,
    Mips64,
    Msp430,
    PowerPc,
    PowerPc64,
    Riscv32,
    Riscv64,
    S390x,
    Sparc64,
    X86_64,
    X86_64X32,
    Unknown,
}

/// Object kind of the image.  Only `Executable` is supported for encoding.
#[derive(Debug, Clone, Copy, PartialEq, Eq, Structural)]
pub enum ObjectKind {
    Unknown,
    Relocatable,
    Executable,
    Dynamic,
    Core,
}

/// Why a decode or encode failed.
#[derive(Debug, Clone, Copy, PartialEq, Eq, Structural)]
pub enum ElfError {
    /// The input cannot be parsed as an ELF image.
    MalformedHeader,
    /// A segment declares a memory size smaller than its stored content.
    InconsistentSegmentSize,
    /// Encoding was asked of an image that is not a standalone executable.
    UnsupportedObjectKind,
    /// Encoding was asked of an architecture outside the machine table.
    UnsupportedArchitecture,
    /// The number of bytes emitted differs from the number reserved.
    LayoutInconsistency,
}

/// One loadable segment of the program's memory image.
#[derive(Debug, Clone, PartialEq, Eq)]
pub struct Segment {
    /// Virtual load address.
    pub addr: Addr,
    /// Semantic role, fixed by the permission flags at decode time.
    pub ty: SegmentType,
    /// The bytes backing the segment's file image.
    pub data: Vec<u8>,
    /// Zero bytes that exist in memory beyond `data` but are not stored.
    pub zero_padding: u64,
    /// Whether the segment occupies file space at all.
    pub load: bool,
}

/// The whole loadable program.
#[derive(Debug, Clone, PartialEq, Eq)]
pub struct ElfInfo {
    /// Loadable segments, in file order.  The order is significant: it fixes
    /// both the descriptor order and the physical layout order on encode.
    pub segments: Vec<Segment>,
    /// Virtual address at which execution begins.
    pub entry: Addr,
    /// Word width of every numeric field.
    pub is_64: bool,
    /// Byte order of every numeric field.
    pub endian: Endianness,
    /// Instruction-set identifier.
    pub architecture: Architecture,
    /// Object kind.
    pub kind: ObjectKind,
}

/// Mathematical model of a [`Segment`].
#[verifier::ext_equal]
pub ghost struct SegmentModel {
    pub addr: u64,
    pub ty: SegmentType,
    pub data: Seq<u8>,
    pub zero_padding: u64,
    pub load: bool,
}

/// Mathematical model of an [`ElfInfo`].
#[verifier::ext_equal]
pub ghost struct ElfModel {
    pub segments: Seq<SegmentModel>,
    pub entry: u64,
    pub is_64: bool,
    pub endian: Endianness,
    pub architecture: Architecture,
    pub kind: ObjectKind,
}

impl View for Segment {
    type V = SegmentModel;

    open spec fn view(&self) -> SegmentModel {
        SegmentModel {
            addr: self.addr,
            ty: self.ty,
            data: self.data@,
            zero_padding: self.zero_padding,
            load: self.load,
        }
    }
}

impl View for ElfInfo {
    type V = ElfModel;

    open spec fn view(&self) -> ElfModel {
        ElfModel {
            segments: self.segments@.map_values(|s: Segment| s@),
            entry: self.entry,
            is_64: self.is_64,
            endian: self.endian,
            architecture: self.architecture,
            kind: self.kind,
        }
    }
}

/// Length of the maximal run of zero bytes at the end of `s`.
pub open spec fn trailing_zero_count(s: Seq<u8>) -> int
    decreases s.len(),
{
    if s.len() == 0 || s.last() != 0 {
        0
    } else {
        1 + trailing_zero_count(s.drop_last())
    }
}

/// `s` with its trailing zero bytes removed.
pub open spec fn strip_data(s: Seq<u8>) -> Seq<u8> {
    s.take(s.len() - trailing_zero_count(s))
}

/// A segment after compaction: trailing zeros move from `data` into
/// `zero_padding`; everything else is unchanged.
pub open spec fn strip_segment(s: SegmentModel) -> SegmentModel {
    SegmentModel {
        data: strip_data(s.data),
        zero_padding: (s.zero_padding + trailing_zero_count(s.data)) as u64,
        ..s
    }
}

/// An image after compaction of every segment.
pub open spec fn strip_image(m: ElfModel) -> ElfModel {
    ElfModel { segments: m.segments.map_values(|s: SegmentModel| strip_segment(s)), ..m }
}

/// Total number of trailing zero bytes over the first `k` segments.
pub open spec fn stripped_prefix_total(segs: Seq<SegmentModel>, k: int) -> int
    decreases k,
{
    if k <= 0 {
        0
    } else {
        stripped_prefix_total(segs, k - 1) + trailing_zero_count(segs[k - 1].data)
    }
}

/// Total number of trailing zero bytes over all segments.
pub open spec fn stripped_total(segs: Seq<SegmentModel>) -> int {
    stripped_prefix_total(segs, segs.len() as int)
}

/// Total stored content length over the first `k` segments.
pub open spec fn data_len_prefix(segs: Seq<SegmentModel>, k: int) -> int
    decreases k,
{
    if k <= 0 {
        0
    } else {
        data_len_prefix(segs, k - 1) + segs[k - 1].data.len()
    }
}

/// A segment whose memory image size fits in a 64-bit word.
pub open spec fn segment_fits(s: SegmentModel) -> bool {
    s.data.len() + s.zero_padding <= u64::MAX
}

/// The trailing zero run is never longer than the data itself.
pub proof fn lemma_trailing_zero_count_le_len(s: Seq<u8>)
    ensures
        0 <= trailing_zero_count(s) <= s.len(),
    decreases s.len(),
{
    if s.len() != 0 && s.last() == 0 {
        lemma_trailing_zero_count_le_len(s.drop_last());
    }
}

/// Every byte in the trailing run is zero, and the byte just before the
/// run (if any) is not.
pub proof fn lemma_trailing_zero_count_bytes(s: Seq<u8>)
    ensures
        forall|j: int| s.len() - trailing_zero_count(s) <= j < s.len() ==> s[j] == 0,
        trailing_zero_count(s) < s.len() ==> s[s.len() - trailing_zero_count(s) - 1] != 0,
    decreases s.len(),
{
    lemma_trailing_zero_count_le_len(s);
    if s.len() != 0 && s.last() == 0 {
        lemma_trailing_zero_count_bytes(s.drop_last());
        lemma_trailing_zero_count_le_len(s.drop_last());
        assert forall|j: int| s.len() - trailing_zero_count(s) <= j < s.len() implies s[j]
            == 0 by {
            if j < s.len() - 1 {
                assert(s.drop_last()[j] == s[j]);
            }
        }
    }
}

/// The characterization in the other direction: a run of zeros at the end,
/// bounded by a non-zero byte or the start, is exactly the trailing count.
pub proof fn lemma_trailing_zero_count_from_run(s: Seq<u8>, k: int)
    requires
        0 <= k <= s.len(),
        forall|j: int| s.len() - k <= j < s.len() ==> s[j] == 0,
        k < s.len() ==> s[s.len() - k - 1] != 0,
    ensures
        trailing_zero_count(s) == k,
    decreases s.len(),
{
    if s.len() == 0 {
    } else if k == 0 {
    } else {
        assert(s.last() == 0);
        assert forall|j: int| s.drop_last().len() - (k - 1) <= j < s.drop_last().len() implies
            s.drop_last()[j] == 0 by {
            assert(s.drop_last()[j] == s[j]);
        }
        if k - 1 < s.drop_last().len() {
            assert(s.drop_last()[s.drop_last().len() - (k - 1) - 1] == s[s.len() - k - 1]);
        }
        lemma_trailing_zero_count_from_run(s.drop_last(), k - 1);
    }
}

/// Stripped data never ends in a zero byte, so stripping is idempotent
/// on one segment's data.
pub proof fn lemma_strip_data_idempotent(s: Seq<u8>)
    ensures
        trailing_zero_count(strip_data(s)) == 0,
        strip_data(strip_data(s)) == strip_data(s),
{
    lemma_trailing_zero_count_le_len(s);
    lemma_trailing_zero_count_bytes(s);
    let t = strip_data(s);
    if t.len() != 0 {
        assert(t.last() == s[s.len() - trailing_zero_count(s) - 1]);
        assert(t.last() != 0);
    }
    assert(strip_data(t) =~= t);
}

/// Compaction never changes a segment's address, role, or memory image
/// size: `data.len() + zero_padding` is invariant, trailing zeros only
/// move from `data` into `zero_padding`.
pub proof fn lemma_strip_segment_preserves_sizes(s: SegmentModel)
    requires
        segment_fits(s),
    ensures
        strip_segment(s).addr == s.addr,
        strip_segment(s).ty == s.ty,
        strip_segment(s).load == s.load,
        strip_segment(s).data.len() + strip_segment(s).zero_padding == s.data.len()
            + s.zero_padding,
        segment_fits(strip_segment(s)),
{
    lemma_trailing_zero_count_le_len(s.data);
}

/// The size-sum invariant over a whole image: compaction keeps every
/// region, in order, with its address, role and memory image size
/// (`data.len() + zero_padding`) unchanged; only the split between stored
/// content and padding moves.
pub proof fn lemma_strip_image_preserves_sizes(m: ElfModel)
    requires
        forall|i: int| 0 <= i < m.segments.len() ==> segment_fits(#[trigger] m.segments[i]),
    ensures
        strip_image(m).segments.len() == m.segments.len(),
        forall|i: int|
            0 <= i < m.segments.len() ==> {
                let s = #[trigger] m.segments[i];
                let t = strip_image(m).segments[i];
                t.addr == s.addr && t.ty == s.ty && t.load == s.load && t.data.len()
                    + t.zero_padding == s.data.len() + s.zero_padding
            },
{
    assert forall|i: int| 0 <= i < m.segments.len() implies {
        let s = #[trigger] m.segments[i];
        let t = strip_image(m).segments[i];
        t.addr == s.addr && t.ty == s.ty && t.load == s.load && t.data.len() + t.zero_padding
            == s.data.len() + s.zero_padding
    } by {
        lemma_strip_segment_preserves_sizes(m.segments[i]);
    }
}

/// Compaction is idempotent: a second pass strips nothing and leaves the
/// image unchanged.
pub proof fn lemma_strip_image_idempotent(m: ElfModel)
    ensures
        strip_image(strip_image(m)) == strip_image(m),
        stripped_total(strip_image(m).segments) == 0,
{
    let segs = strip_image(m).segments;
    assert forall|i: int| 0 <= i < segs.len() implies trailing_zero_count(#[trigger] segs[i].data)
        == 0 && strip_segment(segs[i]) == segs[i] by {
        lemma_strip_data_idempotent(m.segments[i].data);
        assert(segs[i] == strip_segment(m.segments[i]));
        assert(segs[i].data =~= strip_data(segs[i].data));
        assert(strip_segment(segs[i]) =~= segs[i]);
    }
    lemma_stripped_prefix_total_zero(segs, segs.len() as int);
    assert(strip_image(strip_image(m)).segments =~= strip_image(m).segments);
    assert(strip_image(strip_image(m)) =~= strip_image(m));
}

proof fn lemma_stripped_prefix_total_zero(segs: Seq<SegmentModel>, k: int)
    requires
        k <= segs.len(),
        forall|i: int| 0 <= i < segs.len() ==> trailing_zero_count(#[trigger] segs[i].data) == 0,
    ensures
        stripped_prefix_total(segs, k) == 0,
    decreases k,
{
    if k > 0 {
        lemma_stripped_prefix_total_zero(segs, k - 1);
    }
}

/// Count the trailing zero bytes of `data`.
fn count_trailing_zeroes(data: &Vec<u8>) -> (k: usize)
    ensures
        k == trailing_zero_count(data@),
{
    let n = data.len();
    let mut k: usize = 0;
    while k < n && data[n - 1 - k] == 0
        invariant
            0 <= k <= n,
            n == data@.len(),
            forall|j: int| n - k <= j < n ==> data@[j] == 0,
        decreases n - k,
    {
        k = k + 1;
    }
    proof {
        lemma_trailing_zero_count_from_run(data@, k as int);
    }
    k
}

/// Strip trailing zeroes from all segments.
///
/// The removed zeroes are kept track of in the `zero_padding` field, so that
/// each segment's memory image size (`data.len() + zero_padding`) is
/// unchanged.  Returns the total number of bytes removed.
pub fn strip_zeroes(info: &mut ElfInfo) -> (total: usize)
    requires
        forall|i: int|
            0 <= i < old(info).segments@.len() ==> segment_fits(#[trigger] old(info).segments@[i]@),
        data_len_prefix(old(info)@.segments, old(info).segments@.len() as int) <= usize::MAX,
    ensures
        final(info)@ == strip_image(old(info)@),
        total == stripped_total(old(info)@.segments),
{
    let ghost orig = info@.segments;
    let mut total: usize = 0;
    let n = info.segments.len();
    let mut i: usize = 0;
    while i < n
        invariant
            0 <= i <= n,
            n == info.segments@.len(),
            orig == old(info)@.segments,
            orig.len() == n,
            info.entry == old(info).entry,
            info.is_64 == old(info).is_64,
            info.endian == old(info).endian,
            info.architecture == old(info).architecture,
            info.kind == old(info).kind,
            forall|j: int| 0 <= j < i ==> info.segments@[j]@ == strip_segment(#[trigger] orig[j]),
            forall|j: int| i <= j < n ==> info.segments@[j]@ == #[trigger] orig[j],
            forall|j: int| 0 <= j < n ==> segment_fits(#[trigger] orig[j]),
            total == stripped_prefix_total(orig, i as int),
            total <= data_len_prefix(orig, i as int),
            data_len_prefix(orig, n as int) <= usize::MAX,
        decreases n - i,
    {
        proof {
            lemma_trailing_zero_count_le_len(orig[i as int].data);
            lemma_data_len_prefix_mono(orig, i as int, n as int);
        }
        let k = count_trailing_zeroes(&info.segments[i].data);
        if k > 0 {
            let seg = vstd::std_specs::vec::vec_index_mut(&mut info.segments, i);
            let newlen = seg.data.len() - k;
            seg.data.truncate(newlen);
            seg.zero_padding = seg.zero_padding + (k as u64);
        }
        total = total + k;
        i = i + 1;
    }
    proof {
        assert(final(info)@.segments =~= strip_image(old(info)@).segments);
        assert(final(info)@ =~= strip_image(old(info)@));
    }
    total
}

proof fn lemma_data_len_prefix_mono(segs: Seq<SegmentModel>, i: int, n: int)
    requires
        0 <= i < n <= segs.len(),
    ensures
        data_len_prefix(segs, i) + segs[i].data.len() <= data_len_prefix(segs, n),
        stripped_prefix_total(segs, i) <= data_len_prefix(segs, i),
    decreases n,
{
    lemma_stripped_le_data_len(segs, i);
    lemma_data_len_prefix_le(segs, i + 1, n);
}

proof fn lemma_data_len_prefix_le(segs: Seq<SegmentModel>, i: int, n: int)
    requires
        0 <= i <= n <= segs.len(),
    ensures
        data_len_prefix(segs, i) <= data_len_prefix(segs, n),
    decreases n - i,
{
    if i < n {
        lemma_data_len_prefix_le(segs, i, n - 1);
        lemma_trailing_zero_count_le_len(segs[n - 1].data);
    }
}

proof fn lemma_stripped_le_data_len(segs: Seq<SegmentModel>, k: int)
    requires
        k <= segs.len(),
    ensures
        stripped_prefix_total(segs, k) <= data_len_prefix(segs, k),
    decreases k,
{
    if k > 0 {
        lemma_stripped_le_data_len(segs, k - 1);
        lemma_trailing_zero_count_le_len(segs[k - 1].data);
    }
}

} // verus!
