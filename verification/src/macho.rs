//! Reading the architectures of a Mach-O binary (thin or universal) straight
//! from its header, as laid out in `<mach-o/loader.h>` and `<mach-o/fat.h>`.

use vstd::prelude::*;

verus! {

// Magic numbers, as read little-endian from the first four bytes of the file.
pub const MH_MAGIC: u32 = 0xfeedface;
pub const MH_CIGAM: u32 = 0xcefaedfe;
pub const MH_MAGIC_64: u32 = 0xfeedfacf;
pub const MH_CIGAM_64: u32 = 0xcffaedfe;
pub const FAT_MAGIC: u32 = 0xcafebabe;
pub const FAT_CIGAM: u32 = 0xbebafeca;
pub const FAT_MAGIC_64: u32 = 0xcafebabf;
pub const FAT_CIGAM_64: u32 = 0xbfbafeca;

// CPU types (mach/machine.h).
pub const CPU_TYPE_X86_64: u32 = 0x0100_0007;
pub const CPU_TYPE_ARM64: u32 = 0x0100_000c;
pub const CPU_TYPE_I386: u32 = 7;
pub const CPU_TYPE_ARM: u32 = 12;
pub const CPU_TYPE_POWERPC: u32 = 18;
pub const CPU_TYPE_POWERPC64: u32 = 0x0100_0012;

/// Number of leading bytes of a file that the header decoder may look at:
/// a 64-bit fat header with twenty slices.
pub const READ_LEN: usize = 648;

/// Upper bound (exclusive) on the slice count of a universal binary; larger
/// counts are the version numbers of Java class files, which share the magic.
pub const MAX_FAT_SLICES: u32 = 30;

#[derive(Debug, Clone, Copy, PartialEq, Eq, PartialOrd, Ord, Structural)]
pub enum Arch {
    Arm64,
    X86_64,
    I386,
    Arm,
    PowerPc,
}

#[derive(Debug, Clone, Copy, PartialEq, Eq, Structural)]
pub enum Status {
    /// Holds an arm64 slice: runs natively on Apple Silicon.
    Native,
    /// x86_64 without arm64: needs Rosetta 2.
    IntelOnly,
    /// Only i386/ppc: cannot run on any recent Mac.
    Obsolete,
}

/// The architecture named by a Mach-O `cputype`, if it is one we know.
pub open spec fn spec_from_cputype(cputype: u32) -> Option<Arch> {
    if cputype == CPU_TYPE_ARM64 {
        Some(Arch::Arm64)
    } else if cputype == CPU_TYPE_X86_64 {
        Some(Arch::X86_64)
    } else if cputype == CPU_TYPE_I386 {
        Some(Arch::I386)
    } else if cputype == CPU_TYPE_ARM {
        Some(Arch::Arm)
    } else if cputype == CPU_TYPE_POWERPC || cputype == CPU_TYPE_POWERPC64 {
        Some(Arch::PowerPc)
    } else {
        None
    }
}

pub open spec fn spec_label(a: Arch) -> Seq<char> {
    match a {
        Arch::Arm64 => "arm64"@,
        Arch::X86_64 => "x86_64"@,
        Arch::I386 => "i386"@,
        Arch::Arm => "arm"@,
        Arch::PowerPc => "ppc"@,
    }
}

pub open spec fn spec_status_str(s: Status) -> Seq<char> {
    match s {
        Status::Native => "native"@,
        Status::IntelOnly => "intel_only"@,
        Status::Obsolete => "obsolete"@,
    }
}

/// A binary is native as soon as it has an arm64 slice, Intel-only when it
/// has an x86_64 slice but no arm64 one, and obsolete otherwise.
pub open spec fn spec_classify(archs: Seq<Arch>) -> Status {
    if archs.contains(Arch::Arm64) {
        Status::Native
    } else if archs.contains(Arch::X86_64) {
        Status::IntelOnly
    } else {
        Status::Obsolete
    }
}


/// The unsigned value of four bytes, `lo` first.
pub open spec fn value_le(lo: u8, b1: u8, b2: u8, hi: u8) -> int {
    lo as int + 256 * b1 + 65536 * b2 + 16777216 * hi
}

/// The `u32` stored at `off`, if four bytes are there, in the given byte order.
pub open spec fn spec_u32_at(buf: Seq<u8>, off: int, big_endian: bool) -> Option<u32> {
    if 0 <= off && off + 4 <= buf.len() {
        if big_endian {
            Some(value_le(buf[off + 3], buf[off + 2], buf[off + 1], buf[off]) as u32)
        } else {
            Some(value_le(buf[off], buf[off + 1], buf[off + 2], buf[off + 3]) as u32)
        }
    } else {
        None
    }
}

pub open spec fn is_thin_magic(magic: u32) -> bool {
    magic == MH_MAGIC || magic == MH_CIGAM || magic == MH_MAGIC_64 || magic == MH_CIGAM_64
}

pub open spec fn is_fat_magic(magic: u32) -> bool {
    magic == FAT_MAGIC || magic == FAT_CIGAM || magic == FAT_MAGIC_64 || magic == FAT_CIGAM_64
}

/// Offset of the `cputype` of slice `i` in a fat header.
pub open spec fn fat_entry_offset(i: int, is_64: bool) -> int {
    if is_64 {
        8 + 32 * i
    } else {
        8 + 20 * i
    }
}

/// The known architectures among the first `k` fat slices, in slice order.
pub open spec fn fat_known_archs(buf: Seq<u8>, k: nat, is_64: bool) -> Seq<Arch>
    decreases k,
{
    if k == 0 {
        Seq::empty()
    } else {
        let prev = fat_known_archs(buf, (k - 1) as nat, is_64);
        match spec_u32_at(buf, fat_entry_offset(k - 1, is_64), true) {
            Some(cputype) => match spec_from_cputype(cputype) {
                Some(a) => prev.push(a),
                None => prev,
            },
            None => prev,
        }
    }
}

/// Universal headers are big-endian on disk. A slice count of zero or of 30
/// and more is refused (a Java class file has its version there); so is a
/// header cut before the last slice's `cputype`, and one with no known
/// architecture.
pub open spec fn spec_fat_archs(buf: Seq<u8>, magic: u32) -> Option<Seq<Arch>> {
    let is_64 = magic == FAT_MAGIC_64 || magic == FAT_CIGAM_64;
    match spec_u32_at(buf, 4, true) {
        None => None,
        Some(n) => if n == 0 || n >= MAX_FAT_SLICES {
            None
        } else if fat_entry_offset(n - 1, is_64) + 4 > buf.len() {
            None
        } else {
            let archs = fat_known_archs(buf, n as nat, is_64);
            if archs.len() == 0 {
                None
            } else {
                Some(archs)
            }
        },
    }
}

/// The architectures named by a Mach-O header: one for a thin binary whose
/// `cputype` is known, the known slices of a universal binary, `None` for
/// anything else (a script, a short file, an unknown magic).
pub open spec fn spec_archs_from_header(buf: Seq<u8>) -> Option<Seq<Arch>> {
    match spec_u32_at(buf, 0, false) {
        None => None,
        Some(magic) => if is_thin_magic(magic) {
            let big_endian = magic == MH_CIGAM || magic == MH_CIGAM_64;
            match spec_u32_at(buf, 4, big_endian) {
                None => None,
                Some(cputype) => match spec_from_cputype(cputype) {
                    Some(a) => Some(seq![a]),
                    None => None,
                },
            }
        } else if is_fat_magic(magic) {
            spec_fat_archs(buf, magic)
        } else {
            None
        },
    }
}

pub open spec fn opt_view(r: Option<Vec<Arch>>) -> Option<Seq<Arch>> {
    match r {
        Some(v) => Some(v@),
        None => None,
    }
}

impl Arch {
    pub fn label(self) -> (r: &'static str)
        ensures
            r@ == spec_label(self),
    {
        match self {
            Arch::Arm64 => "arm64",
            Arch::X86_64 => "x86_64",
            Arch::I386 => "i386",
            Arch::Arm => "arm",
            Arch::PowerPc => "ppc",
        }
    }

    pub fn from_cputype(cputype: u32) -> (r: Option<Arch>)
        ensures
            r == spec_from_cputype(cputype),
    {
        if cputype == CPU_TYPE_ARM64 {
            Some(Arch::Arm64)
        } else if cputype == CPU_TYPE_X86_64 {
            Some(Arch::X86_64)
        } else if cputype == CPU_TYPE_I386 {
            Some(Arch::I386)
        } else if cputype == CPU_TYPE_ARM {
            Some(Arch::Arm)
        } else if cputype == CPU_TYPE_POWERPC || cputype == CPU_TYPE_POWERPC64 {
            Some(Arch::PowerPc)
        } else {
            None
        }
    }
}

impl Status {
    pub fn as_str(self) -> (r: &'static str)
        ensures
            r@ == spec_status_str(self),
    {
        match self {
            Status::Native => "native",
            Status::IntelOnly => "intel_only",
            Status::Obsolete => "obsolete",
        }
    }
}


/// The `u32` at `off` in the given byte order, if four bytes are there.
pub fn u32_at(buf: &[u8], off: usize, big_endian: bool) -> (r: Option<u32>)
    ensures
        r == spec_u32_at(buf@, off as int, big_endian),
{
    if off > buf.len() || buf.len() - off < 4 {
        return None;
    }
    let (lo, b1, b2, hi) = if big_endian {
        (buf[off + 3], buf[off + 2], buf[off + 1], buf[off])
    } else {
        (buf[off], buf[off + 1], buf[off + 2], buf[off + 3])
    };
    let v: u32 = (lo as u32) + (b1 as u32) * 256 + (b2 as u32) * 65536 + (hi as u32) * 16777216;
    Some(v)
}

/// The architectures named by the first bytes of a file.
pub fn archs_from_header(buf: &[u8]) -> (r: Option<Vec<Arch>>)
    ensures
        opt_view(r) == spec_archs_from_header(buf@),
{
    let magic = match u32_at(buf, 0, false) {
        Some(m) => m,
        None => return None,
    };
    if magic == MH_MAGIC || magic == MH_CIGAM || magic == MH_MAGIC_64 || magic == MH_CIGAM_64 {
        let big_endian = magic == MH_CIGAM || magic == MH_CIGAM_64;
        let cputype = match u32_at(buf, 4, big_endian) {
            Some(c) => c,
            None => return None,
        };
        match Arch::from_cputype(cputype) {
            Some(a) => {
                let mut v: Vec<Arch> = Vec::new();
                v.push(a);
                proof {
                    assert(v@ =~= seq![a]);
                }
                Some(v)
            },
            None => None,
        }
    } else if magic == FAT_MAGIC || magic == FAT_CIGAM || magic == FAT_MAGIC_64 || magic
        == FAT_CIGAM_64 {
        fat_archs(buf, magic)
    } else {
        None
    }
}

/// The known architectures of a universal header.
pub fn fat_archs(buf: &[u8], magic: u32) -> (r: Option<Vec<Arch>>)
    ensures
        opt_view(r) == spec_fat_archs(buf@, magic),
{
    let is_64 = magic == FAT_MAGIC_64 || magic == FAT_CIGAM_64;
    let nfat_arch = match u32_at(buf, 4, true) {
        Some(n) => n,
        None => return None,
    };
    if nfat_arch == 0 || nfat_arch >= MAX_FAT_SLICES {
        return None;
    }
    let entry_size: usize = if is_64 { 32 } else { 20 };
    let n = nfat_arch as usize;
    let mut out: Vec<Arch> = Vec::new();
    let mut i: usize = 0;
    while i < n
        invariant
            0 <= i <= n,
            n == nfat_arch,
            0 < nfat_arch < MAX_FAT_SLICES,
            entry_size == (if is_64 { 32usize } else { 20usize }),
            is_64 == (magic == FAT_MAGIC_64 || magic == FAT_CIGAM_64),
            spec_u32_at(buf@, 4, true) == Some(nfat_arch),
            out@ == fat_known_archs(buf@, i as nat, is_64),
            i > 0 ==> fat_entry_offset(i - 1, is_64) + 4 <= buf@.len(),
        decreases n - i,
    {
        let off = 8 + i * entry_size;
        assert(off == fat_entry_offset(i as int, is_64));
        let cputype = match u32_at(buf, off, true) {
            Some(c) => c,
            None => {
                assert(fat_entry_offset(n - 1, is_64) + 4 > buf@.len());
                return None;
            },
        };
        if let Some(a) = Arch::from_cputype(cputype) {
            out.push(a);
        }
        i = i + 1;
    }
    if out.len() == 0 {
        None
    } else {
        Some(out)
    }
}

/// Whether a binary with these slices runs natively, needs Rosetta 2, or
/// cannot run at all on a recent Mac.
pub fn classify(archs: &[Arch]) -> (r: Status)
    ensures
        r == spec_classify(archs@),
{
    let mut has_arm64 = false;
    let mut has_x86_64 = false;
    let mut i: usize = 0;
    while i < archs.len()
        invariant
            0 <= i <= archs@.len(),
            has_arm64 <==> exists|j: int| 0 <= j < i && archs@[j] == Arch::Arm64,
            has_x86_64 <==> exists|j: int| 0 <= j < i && archs@[j] == Arch::X86_64,
        decreases archs@.len() - i,
    {
        let a = archs[i];
        if a == Arch::Arm64 {
            has_arm64 = true;
        } else if a == Arch::X86_64 {
            has_x86_64 = true;
        }
        i = i + 1;
    }
    if has_arm64 {
        Status::Native
    } else if has_x86_64 {
        Status::IntelOnly
    } else {
        Status::Obsolete
    }
}


/// The four bytes of `v`, least significant first (`u32::to_le_bytes`).
pub open spec fn le_bytes(v: u32) -> Seq<u8> {
    seq![(v % 256) as u8, ((v / 256) % 256) as u8, ((v / 65536) % 256) as u8, (v / 16777216) as u8]
}

/// The four bytes of `v`, most significant first (`u32::to_be_bytes`).
pub open spec fn be_bytes(v: u32) -> Seq<u8> {
    seq![(v / 16777216) as u8, ((v / 65536) % 256) as u8, ((v / 256) % 256) as u8, (v % 256) as u8]
}

proof fn lemma_bytes_value(v: u32)
    ensures
        value_le((v % 256) as u8, ((v / 256) % 256) as u8, ((v / 65536) % 256) as u8, (v / 16777216) as u8) == v,
{
}

/// Reading back a `u32` written at `off`, in either byte order.
proof fn lemma_read_written(buf: Seq<u8>, off: int, v: u32, big_endian: bool)
    requires
        0 <= off,
        off + 4 <= buf.len(),
        buf.subrange(off, off + 4) == if big_endian { be_bytes(v) } else { le_bytes(v) },
    ensures
        spec_u32_at(buf, off, big_endian) == Some(v),
{
    let w = buf.subrange(off, off + 4);
    assert(buf[off] == w[0]);
    assert(buf[off + 1] == w[1]);
    assert(buf[off + 2] == w[2]);
    assert(buf[off + 3] == w[3]);
    lemma_bytes_value(v);
}

/// The header of a thin Mach-O binary: the magic as stored, the `cputype`
/// in the byte order the magic announces, and whatever follows.
pub open spec fn thin_header(magic: u32, cputype: u32, rest: Seq<u8>) -> Seq<u8> {
    le_bytes(magic) + (if magic == MH_CIGAM || magic == MH_CIGAM_64 {
        be_bytes(cputype)
    } else {
        le_bytes(cputype)
    }) + rest
}

/// A thin header is read back as the one architecture its `cputype` names,
/// whatever follows it and whichever its byte order.
pub proof fn law_thin_header_read_back(magic: u32, cputype: u32, rest: Seq<u8>)
    requires
        is_thin_magic(magic),
    ensures
        spec_archs_from_header(thin_header(magic, cputype, rest)) == match spec_from_cputype(cputype) {
            Some(a) => Some(seq![a]),
            None => None,
        },
{
    let h = thin_header(magic, cputype, rest);
    let be = magic == MH_CIGAM || magic == MH_CIGAM_64;
    assert(h.subrange(0, 4) =~= le_bytes(magic));
    lemma_read_written(h, 0, magic, false);
    assert(h.subrange(4, 8) =~= if be { be_bytes(cputype) } else { le_bytes(cputype) });
    lemma_read_written(h, 4, cputype, be);
}

pub open spec fn fat_entry_size(is_64: bool) -> int {
    if is_64 {
        32
    } else {
        20
    }
}

pub open spec fn is_fat_64(magic: u32) -> bool {
    magic == FAT_MAGIC_64 || magic == FAT_CIGAM_64
}

/// The slice entries of a universal header: each `cputype` big-endian,
/// followed by the rest of the entry (subtype, offset, size, alignment).
pub open spec fn fat_entries(cputypes: Seq<u32>, is_64: bool) -> Seq<u8>
    decreases cputypes.len(),
{
    if cputypes.len() == 0 {
        Seq::empty()
    } else {
        fat_entries(cputypes.drop_last(), is_64) + be_bytes(cputypes.last()) + Seq::new(
            (fat_entry_size(is_64) - 4) as nat,
            |i: int| 0u8,
        )
    }
}

/// A universal header listing `cputypes`.
pub open spec fn fat_header(magic: u32, cputypes: Seq<u32>) -> Seq<u8> {
    le_bytes(magic) + be_bytes(cputypes.len() as u32) + fat_entries(cputypes, is_fat_64(magic))
}

/// The architectures named by known `cputypes`, in order.
pub open spec fn known_archs(cputypes: Seq<u32>) -> Seq<Arch>
    decreases cputypes.len(),
{
    if cputypes.len() == 0 {
        Seq::empty()
    } else {
        let prev = known_archs(cputypes.drop_last());
        match spec_from_cputype(cputypes.last()) {
            Some(a) => prev.push(a),
            None => prev,
        }
    }
}

proof fn lemma_fat_entries(cputypes: Seq<u32>, is_64: bool, i: int)
    requires
        0 <= i < cputypes.len(),
    ensures
        fat_entries(cputypes, is_64).len() == fat_entry_size(is_64) * cputypes.len(),
        fat_entries(cputypes, is_64).subrange(
            fat_entry_size(is_64) * i,
            fat_entry_size(is_64) * i + 4,
        ) == be_bytes(cputypes[i]),
    decreases cputypes.len(),
{
    let es = fat_entry_size(is_64);
    let n = cputypes.len();
    let prev = cputypes.drop_last();
    let e = fat_entries(cputypes, is_64);
    let p = fat_entries(prev, is_64);
    if i < n - 1 {
        lemma_fat_entries(prev, is_64, i);
        assert(p.len() == es * (n - 1));
        assert(e.len() == es * n) by {
            if is_64 {
                assert(32 * (n - 1) + 4 + 28 == 32 * n);
            } else {
                assert(20 * (n - 1) + 4 + 16 == 20 * n);
            }
        }
        assert(es * i + 4 <= es * (n - 1)) by {
            if is_64 {
                assert(32 * i + 4 <= 32 * (n - 1));
            } else {
                assert(20 * i + 4 <= 20 * (n - 1));
            }
        }
        assert(e.subrange(es * i, es * i + 4) =~= p.subrange(es * i, es * i + 4));
    } else {
        if n > 1 {
            lemma_fat_entries(prev, is_64, 0);
        } else {
            assert(p.len() == 0);
        }
        assert(p.len() == es * (n - 1));
        assert(es * i == es * (n - 1));
        assert(e.len() == es * n) by {
            if is_64 {
                assert(32 * (n - 1) + 4 + 28 == 32 * n);
            } else {
                assert(20 * (n - 1) + 4 + 16 == 20 * n);
            }
        }
        assert(e.subrange(es * i, es * i + 4) =~= be_bytes(cputypes.last()));
    }
}

proof fn lemma_fat_header_slot(magic: u32, cputypes: Seq<u32>, i: int)
    requires
        0 <= i < cputypes.len(),
    ensures
        fat_header(magic, cputypes).len() == 8 + fat_entry_size(is_fat_64(magic)) * cputypes.len(),
        spec_u32_at(
            fat_header(magic, cputypes),
            fat_entry_offset(i, is_fat_64(magic)),
            true,
        ) == Some(cputypes[i]),
{
    let is_64 = is_fat_64(magic);
    let es = fat_entry_size(is_64);
    let h = fat_header(magic, cputypes);
    let e = fat_entries(cputypes, is_64);
    lemma_fat_entries(cputypes, is_64, i);
    assert(fat_entry_offset(i, is_64) == 8 + es * i);
    assert(h.subrange(8 + es * i, 8 + es * i + 4) =~= e.subrange(es * i, es * i + 4));
    lemma_read_written(h, 8 + es * i, cputypes[i], true);
}

proof fn lemma_fat_known(magic: u32, cputypes: Seq<u32>, k: nat)
    requires
        k <= cputypes.len(),
    ensures
        fat_known_archs(fat_header(magic, cputypes), k, is_fat_64(magic)) == known_archs(
            cputypes.take(k as int),
        ),
    decreases k,
{
    if k > 0 {
        lemma_fat_known(magic, cputypes, (k - 1) as nat);
        lemma_fat_header_slot(magic, cputypes, k - 1);
        assert(cputypes.take(k as int).drop_last() =~= cputypes.take(k - 1));
        assert(cputypes.take(k as int).last() == cputypes[k - 1]);
    }
}

/// A universal header is read back as the known architectures among the
/// `cputype`s it lists, in order; `None` when it lists none we know.
pub proof fn law_fat_header_read_back(magic: u32, cputypes: Seq<u32>)
    requires
        is_fat_magic(magic),
        0 < cputypes.len() < MAX_FAT_SLICES,
    ensures
        spec_archs_from_header(fat_header(magic, cputypes)) == if known_archs(cputypes).len() == 0 {
            None
        } else {
            Some(known_archs(cputypes))
        },
{
    let h = fat_header(magic, cputypes);
    let n = cputypes.len();
    let is_64 = is_fat_64(magic);
    lemma_fat_header_slot(magic, cputypes, 0);
    assert(h.subrange(0, 4) =~= le_bytes(magic));
    lemma_read_written(h, 0, magic, false);
    assert(h.subrange(4, 8) =~= be_bytes(n as u32));
    lemma_read_written(h, 4, n as u32, true);
    assert(fat_entry_offset(n - 1, is_64) + 4 <= h.len()) by {
        if is_64 {
            assert(8 + 32 * (n - 1) + 4 <= 8 + 32 * n);
        } else {
            assert(8 + 20 * (n - 1) + 4 <= 8 + 20 * n);
        }
    }
    lemma_fat_known(magic, cputypes, n);
    assert(cputypes.take(n as int) =~= cputypes);
    assert(!is_thin_magic(magic));
}

/// A Java class file shares the magic CA FE BA BE, followed by its minor and
/// major version; since every major version is at least 45, it is never
/// taken for a universal binary.
pub proof fn law_java_class_is_not_fat(buf: Seq<u8>)
    requires
        buf.len() >= 8,
        buf[0] == 0xca,
        buf[1] == 0xfe,
        buf[2] == 0xba,
        buf[3] == 0xbe,
        256 * buf[6] + buf[7] >= 45,
    ensures
        spec_archs_from_header(buf) is None,
{
}

proof fn lemma_u32_at_extend(buf: Seq<u8>, extra: Seq<u8>, off: int, big_endian: bool)
    requires
        0 <= off,
        off + 4 <= buf.len(),
    ensures
        spec_u32_at(buf + extra, off, big_endian) == spec_u32_at(buf, off, big_endian),
{
    let b = buf + extra;
    assert(b[off] == buf[off]);
    assert(b[off + 1] == buf[off + 1]);
    assert(b[off + 2] == buf[off + 2]);
    assert(b[off + 3] == buf[off + 3]);
}

proof fn lemma_fat_known_extend(buf: Seq<u8>, extra: Seq<u8>, k: nat, is_64: bool)
    requires
        k > 0 ==> fat_entry_offset(k - 1, is_64) + 4 <= buf.len(),
    ensures
        fat_known_archs(buf + extra, k, is_64) == fat_known_archs(buf, k, is_64),
    decreases k,
{
    if k > 0 {
        if k > 1 {
            assert(fat_entry_offset(k - 2, is_64) < fat_entry_offset(k - 1, is_64));
        }
        lemma_fat_known_extend(buf, extra, (k - 1) as nat, is_64);
        lemma_u32_at_extend(buf, extra, fat_entry_offset(k - 1, is_64), true);
    }
}

/// Reading more of a file never changes a recognised header: the decoder
/// only looks at bytes that a successful read already covered.
pub proof fn law_header_unchanged_by_more_bytes(buf: Seq<u8>, extra: Seq<u8>)
    requires
        spec_archs_from_header(buf) is Some,
    ensures
        spec_archs_from_header(buf + extra) == spec_archs_from_header(buf),
{
    let b = buf + extra;
    lemma_u32_at_extend(buf, extra, 0, false);
    lemma_u32_at_extend(buf, extra, 4, false);
    lemma_u32_at_extend(buf, extra, 4, true);
    let magic = spec_u32_at(buf, 0, false)->0;
    if is_fat_magic(magic) {
        let is_64 = magic == FAT_MAGIC_64 || magic == FAT_CIGAM_64;
        let n = spec_u32_at(buf, 4, true)->0;
        lemma_fat_known_extend(buf, extra, n as nat, is_64);
    }
}

/// A recognised header names between one and 29 architectures.
pub proof fn law_header_arch_count(buf: Seq<u8>)
    requires
        spec_archs_from_header(buf) is Some,
    ensures
        1 <= spec_archs_from_header(buf)->0.len() < MAX_FAT_SLICES,
{
    let magic = spec_u32_at(buf, 0, false)->0;
    if is_fat_magic(magic) {
        let is_64 = magic == FAT_MAGIC_64 || magic == FAT_CIGAM_64;
        let n = spec_u32_at(buf, 4, true)->0;
        lemma_fat_known_len(buf, n as nat, is_64);
    }
}

proof fn lemma_fat_known_len(buf: Seq<u8>, k: nat, is_64: bool)
    ensures
        fat_known_archs(buf, k, is_64).len() <= k,
    decreases k,
{
    if k > 0 {
        lemma_fat_known_len(buf, (k - 1) as nat, is_64);
    }
}

} // verus!
