//! The cache binary codec: serializing a list of library descriptors into
//! the byte-exact on-disk cache format, and parsing that format back.
//!
//! The format: a fixed 48-byte header (20-byte magic, entry count, string
//! table length, endianness tag, extension-section offset), followed by one
//! fixed 24-byte little-endian record per library, an interned string table,
//! zero padding to 4-byte alignment, and an extension section carrying the
//! generator string.

use vstd::prelude::*;
use vstd::bytes::*;
use vstd::utf8::*;
use crate::elf::ElfLibrary;
use crate::arch::spec_arch_to_flags;

verus! {

/// Magic constant of the extension section.
pub const EXTENSION_MAGIC: u32 = 0xEAA42174;

/// One on-disk entry: flags, two absolute byte offsets into the file's
/// string table, the minimum OS version, and the capability bitmask.
#[derive(Debug, Clone, Copy, PartialEq, Eq, Structural)]
pub struct CacheEntry {
    pub flags: u32,
    pub key_offset: u32,
    pub value_offset: u32,
    pub osversion: u32,
    pub hwcap: u64,
}

/// The fixed header fields a parse reports.
#[derive(Debug, Clone)]
pub struct CacheHeader {
    pub magic: String,
    pub nlibs: u32,
    pub len_strings: u32,
}

/// Everything a parse recovers from a cache image.
#[derive(Debug, Clone)]
pub struct CacheInfo {
    pub header: CacheHeader,
    pub entries: Vec<CacheEntry>,
    pub string_table: Vec<String>,
    pub generator: Option<String>,
}

/// The mathematical model of one descriptor as the codec sees it: the
/// interned lookup key (the bare file name), the interned path, and the
/// three numeric entry fields.
pub ghost struct LibModel {
    pub name: Seq<u8>,
    pub path: Seq<u8>,
    pub flags: u32,
    pub osversion: u32,
    pub hwcap: u64,
}

// ---------------------------------------------------------------------------
// Byte-sequence comparison (the sort key order).
// ---------------------------------------------------------------------------

/// Lexicographic byte comparison of `a` and `b`, both read from `i` onward.
pub open spec fn spec_bytes_cmp_from(a: Seq<u8>, b: Seq<u8>, i: int) -> core::cmp::Ordering
    decreases a.len() - i when 0 <= i
{
    if i >= a.len() && i >= b.len() {
        core::cmp::Ordering::Equal
    } else if i >= a.len() {
        core::cmp::Ordering::Less
    } else if i >= b.len() {
        core::cmp::Ordering::Greater
    } else if a[i] < b[i] {
        core::cmp::Ordering::Less
    } else if a[i] > b[i] {
        core::cmp::Ordering::Greater
    } else {
        spec_bytes_cmp_from(a, b, i + 1)
    }
}

/// Lexicographic byte comparison, as `str::cmp` orders UTF-8 strings.
pub open spec fn spec_bytes_cmp(a: Seq<u8>, b: Seq<u8>) -> core::cmp::Ordering {
    spec_bytes_cmp_from(a, b, 0)
}

/// The build's sort key order: file name descending, then capability
/// bitmask descending. `Less` means `x` comes strictly before `y`.
pub open spec fn key_cmp(x: LibModel, y: LibModel) -> core::cmp::Ordering {
    let c = spec_bytes_cmp(y.name, x.name);
    if c != core::cmp::Ordering::Equal {
        c
    } else if y.hwcap < x.hwcap {
        core::cmp::Ordering::Less
    } else if y.hwcap > x.hwcap {
        core::cmp::Ordering::Greater
    } else {
        core::cmp::Ordering::Equal
    }
}

/// `x` comes strictly before `y` in the built entry order.
pub open spec fn lib_before(x: LibModel, y: LibModel) -> bool {
    key_cmp(x, y) == core::cmp::Ordering::Less
}

/// `x` may stand at or before `y`: not strictly after.
pub open spec fn lib_le(x: LibModel, y: LibModel) -> bool {
    key_cmp(x, y) != core::cmp::Ordering::Greater
}

/// The sequence is in the built order: file name descending, then bitmask
/// descending.
pub open spec fn libs_sorted(s: Seq<LibModel>) -> bool {
    forall|i: int, j: int| 0 <= i < j < s.len() ==> lib_le(#[trigger] s[i], #[trigger] s[j])
}

/// Stable insertion of `x` into `s`: `x` goes before the first element it
/// strictly precedes, hence after every earlier element it ties with.
pub open spec fn insert_lib(x: LibModel, s: Seq<LibModel>) -> Seq<LibModel>
    decreases s.len(),
{
    if s.len() == 0 {
        seq![x]
    } else if lib_before(x, s[0]) {
        seq![x] + s
    } else {
        seq![s[0]] + insert_lib(x, s.drop_first())
    }
}

/// Stable sort of the descriptor list by the build's key order.
pub open spec fn sort_libs(s: Seq<LibModel>) -> Seq<LibModel>
    decreases s.len(),
{
    if s.len() == 0 {
        Seq::empty()
    } else {
        insert_lib(s.last(), sort_libs(s.drop_last()))
    }
}

/// Byte comparison is `Equal` exactly on equal sequences.
pub proof fn lemma_bytes_cmp_eq(a: Seq<u8>, b: Seq<u8>, i: int)
    requires
        0 <= i <= a.len(),
        0 <= i <= b.len(),
    ensures
        spec_bytes_cmp_from(a, b, i) == core::cmp::Ordering::Equal <==> (a.len() == b.len()
            && forall|t: int| i <= t < a.len() ==> a[t] == b[t]),
    decreases a.len() - i,
{
    if i < a.len() && i < b.len() && a[i] == b[i] {
        lemma_bytes_cmp_eq(a, b, i + 1);
    }
}

/// Byte comparison flips with its arguments.
pub proof fn lemma_bytes_cmp_flip(a: Seq<u8>, b: Seq<u8>, i: int)
    requires
        0 <= i,
    ensures
        spec_bytes_cmp_from(a, b, i) == core::cmp::Ordering::Less <==> spec_bytes_cmp_from(b, a, i)
            == core::cmp::Ordering::Greater,
        spec_bytes_cmp_from(a, b, i) == core::cmp::Ordering::Equal <==> spec_bytes_cmp_from(b, a, i)
            == core::cmp::Ordering::Equal,
    decreases a.len() + b.len() - 2 * i,
{
    if i < a.len() && i < b.len() && a[i] == b[i] {
        lemma_bytes_cmp_flip(a, b, i + 1);
    }
}

/// Byte comparison is transitive in `Less`.
pub proof fn lemma_bytes_cmp_trans(a: Seq<u8>, b: Seq<u8>, c: Seq<u8>, i: int)
    requires
        0 <= i,
        spec_bytes_cmp_from(a, b, i) == core::cmp::Ordering::Less,
        spec_bytes_cmp_from(b, c, i) == core::cmp::Ordering::Less,
    ensures
        spec_bytes_cmp_from(a, c, i) == core::cmp::Ordering::Less,
    decreases b.len() - i,
{
    if i < a.len() && i < b.len() && i < c.len() && a[i] == b[i] && b[i] == c[i] {
        lemma_bytes_cmp_trans(a, b, c, i + 1);
    }
}

/// The key order flips with its arguments.
pub proof fn lemma_key_cmp_flip(x: LibModel, y: LibModel)
    ensures
        key_cmp(x, y) == core::cmp::Ordering::Less <==> key_cmp(y, x)
            == core::cmp::Ordering::Greater,
        key_cmp(x, y) == core::cmp::Ordering::Equal <==> key_cmp(y, x)
            == core::cmp::Ordering::Equal,
{
    lemma_bytes_cmp_flip(y.name, x.name, 0);
}

/// The key order is transitive: what comes before `y` comes before
/// whatever `y` comes at-or-before.
pub proof fn lemma_key_cmp_trans(x: LibModel, y: LibModel, z: LibModel)
    requires
        key_cmp(x, y) == core::cmp::Ordering::Less,
        key_cmp(y, z) != core::cmp::Ordering::Greater,
    ensures
        key_cmp(x, z) == core::cmp::Ordering::Less,
{
    let cxy = spec_bytes_cmp(y.name, x.name);
    let cyz = spec_bytes_cmp(z.name, y.name);
    let cxz = spec_bytes_cmp(z.name, x.name);
    lemma_bytes_cmp_eq(y.name, x.name, 0);
    lemma_bytes_cmp_eq(z.name, y.name, 0);
    lemma_bytes_cmp_eq(z.name, x.name, 0);
    lemma_bytes_cmp_flip(y.name, x.name, 0);
    lemma_bytes_cmp_flip(z.name, y.name, 0);
    if cxy == core::cmp::Ordering::Less {
        // x.name > y.name
        if cyz == core::cmp::Ordering::Less {
            lemma_bytes_cmp_trans(z.name, y.name, x.name, 0);
        } else if cyz == core::cmp::Ordering::Equal {
            assert(z.name =~= y.name);
        } else {
        }
    } else if cxy == core::cmp::Ordering::Equal {
        assert(y.name =~= x.name);
        if cyz == core::cmp::Ordering::Equal {
            assert(z.name =~= y.name);
        }
    } else {
    }
}

/// Stable insertion into a sorted sequence keeps it sorted and adds
/// exactly the inserted element.
pub proof fn lemma_insert_lib(x: LibModel, s: Seq<LibModel>)
    requires
        libs_sorted(s),
    ensures
        libs_sorted(insert_lib(x, s)),
        insert_lib(x, s).to_multiset() =~= s.to_multiset().insert(x),
        insert_lib(x, s).len() == s.len() + 1,
        forall|i: int|
            0 <= i < insert_lib(x, s).len() ==> (#[trigger] insert_lib(x, s)[i]) == x || s.contains(
                insert_lib(x, s)[i],
            ),
    decreases s.len(),
{
    broadcast use vstd::seq_lib::lemma_multiset_commutative;

    let r = insert_lib(x, s);
    if s.len() == 0 {
        assert(s =~= Seq::<LibModel>::empty());
        lemma_insert_multiset_helper(x, s);
        assert(r =~= seq![x] + s);
    } else if lib_before(x, s[0]) {
        assert(r =~= seq![x] + s);
        assert forall|i: int, j: int| 0 <= i < j < r.len() implies lib_le(r[i], r[j]) by {
            if i == 0 && j > 1 {
                assert(lib_le(s[0], s[j - 1]));
                lemma_key_cmp_trans(x, s[0], s[j - 1]);
            }
        }
        lemma_insert_multiset_helper(x, s);
    } else {
        let rest = insert_lib(x, s.drop_first());
        assert(r =~= seq![s[0]] + rest);
        assert forall|i: int, j: int| 0 <= i < j < s.drop_first().len() implies lib_le(
            #[trigger] s.drop_first()[i],
            #[trigger] s.drop_first()[j],
        ) by {
            assert(s.drop_first()[i] == s[i + 1]);
            assert(s.drop_first()[j] == s[j + 1]);
        }
        lemma_insert_lib(x, s.drop_first());
        lemma_key_cmp_flip(x, s[0]);
        assert forall|i: int, j: int| 0 <= i < j < r.len() implies lib_le(r[i], r[j]) by {
            if i == 0 {
                assert(r[j] == rest[j - 1]);
                if rest[j - 1] == x {
                    assert(lib_le(s[0], x));
                } else {
                    let e = rest[j - 1];
                    assert(s.drop_first().contains(e));
                    let k = choose|k: int| 0 <= k < s.drop_first().len() && s.drop_first()[k] == e;
                    assert(s[k + 1] == e);
                    assert(lib_le(s[0], e));
                }
            } else {
                assert(r[i] == rest[i - 1]);
                assert(r[j] == rest[j - 1]);
            }
        }
        assert(r.to_multiset() =~= seq![s[0]].to_multiset().add(rest.to_multiset()));
        assert(s.to_multiset() =~= seq![s[0]].to_multiset().add(s.drop_first().to_multiset())) by {
            assert(s =~= seq![s[0]] + s.drop_first());
        }
        assert(r.to_multiset() =~= s.to_multiset().insert(x)) by {
            broadcast use vstd::multiset::group_multiset_axioms;

        }
        assert forall|i: int| 0 <= i < r.len() implies (#[trigger] r[i]) == x || s.contains(
            r[i],
        ) by {
            if i > 0 && r[i] != x {
                let e = rest[i - 1];
                assert(s.drop_first().contains(e));
                let k = choose|k: int| 0 <= k < s.drop_first().len() && s.drop_first()[k] == e;
                assert(s[k + 1] == e);
            }
        }
    }
}

/// Appending an element and then viewing as a multiset matches insertion.
proof fn lemma_insert_multiset_helper(x: LibModel, s: Seq<LibModel>)
    ensures
        (seq![x] + s).to_multiset() =~= s.to_multiset().insert(x),
    decreases s.len(),
{
    broadcast use vstd::seq_lib::lemma_multiset_commutative;
    broadcast use vstd::multiset::group_multiset_axioms;

    seq![x].to_multiset_ensures();
    Seq::<LibModel>::empty().to_multiset_ensures();
    assert(seq![x] =~= Seq::<LibModel>::empty().push(x));
    assert(seq![x].to_multiset() =~= Seq::<LibModel>::empty().to_multiset().insert(x));
    assert((seq![x] + s).to_multiset() =~= seq![x].to_multiset().add(s.to_multiset()));
}

/// Sorting orders the sequence by the key order and keeps exactly the same
/// descriptors.
pub proof fn lemma_sort_libs(s: Seq<LibModel>)
    ensures
        libs_sorted(sort_libs(s)),
        sort_libs(s).to_multiset() =~= s.to_multiset(),
        sort_libs(s).len() == s.len(),
    decreases s.len(),
{
    if s.len() == 0 {
        assert(s =~= Seq::<LibModel>::empty());
    } else {
        lemma_sort_libs(s.drop_last());
        lemma_insert_lib(s.last(), sort_libs(s.drop_last()));
        s.drop_last().to_multiset_ensures();
        assert(s =~= s.drop_last().push(s.last()));
        assert(s.drop_last().push(s.last()).to_multiset() =~= s.drop_last().to_multiset().insert(
            s.last(),
        ));
        assert(s.to_multiset() =~= s.drop_last().to_multiset().insert(s.last()));
        assert(sort_libs(s) == insert_lib(s.last(), sort_libs(s.drop_last())));
        assert(sort_libs(s).to_multiset() =~= sort_libs(s.drop_last()).to_multiset().insert(
            s.last(),
        ));
        assert(sort_libs(s.drop_last()).to_multiset().insert(s.last())
            =~= s.drop_last().to_multiset().insert(s.last()));
    }
}

// ---------------------------------------------------------------------------
// String interning.
// ---------------------------------------------------------------------------

/// The interning state: the table bytes built so far and, for every string
/// interned, its table-relative offset, in interning order.
pub ghost struct InternState {
    pub table: Seq<u8>,
    pub offsets: Seq<(Seq<u8>, u32)>,
}

/// First offset recorded for `s`, if any.
pub open spec fn assoc_find(offs: Seq<(Seq<u8>, u32)>, s: Seq<u8>) -> Option<u32>
    decreases offs.len(),
{
    if offs.len() == 0 {
        None
    } else if offs[0].0 == s {
        Some(offs[0].1)
    } else {
        assoc_find(offs.drop_first(), s)
    }
}

/// The offset recorded for `s`, or 0 when it was never interned.
pub open spec fn find_or_zero(offs: Seq<(Seq<u8>, u32)>, s: Seq<u8>) -> int {
    match assoc_find(offs, s) {
        Some(o) => o as int,
        None => 0,
    }
}

/// Intern one string: a string already in the table keeps its first
/// offset; a new one is appended with a NUL terminator.
pub open spec fn intern_one(st: InternState, s: Seq<u8>) -> InternState {
    if assoc_find(st.offsets, s) is Some {
        st
    } else {
        InternState {
            table: st.table + s + seq![0u8],
            offsets: st.offsets.push((s, st.table.len() as u32)),
        }
    }
}

/// Intern a descriptor's file name, then its path.
pub open spec fn intern_lib(st: InternState, m: LibModel) -> InternState {
    intern_one(intern_one(st, m.name), m.path)
}

/// The empty interning state.
pub open spec fn intern_empty() -> InternState {
    InternState { table: Seq::empty(), offsets: Seq::empty() }
}

/// Intern every descriptor of `libs`, in order.
pub open spec fn intern_all(libs: Seq<LibModel>) -> InternState
    decreases libs.len(),
{
    if libs.len() == 0 {
        intern_empty()
    } else {
        intern_lib(intern_all(libs.drop_last()), libs.last())
    }
}

// ---------------------------------------------------------------------------
// Layout.
// ---------------------------------------------------------------------------

/// The 20-byte magic identifying the format and its minor version.
pub open spec fn magic_bytes() -> Seq<u8> {
    encode_utf8("glibc-ld.so.cache1.1"@)
}

/// The generator string recorded in the extension section.
pub open spec fn gen_bytes() -> Seq<u8> {
    encode_utf8("ldconfig-rs 0.1.0"@)
}

/// No byte of `s` is NUL, so `s` can live in a NUL-terminated string table.
pub open spec fn nul_free(s: Seq<u8>) -> bool {
    forall|i: int| 0 <= i < s.len() ==> s[i] != 0u8
}

/// The 48-byte fixed header: magic, entry count, string-table length, the
/// little-endian content tag, alignment padding, extension offset, and
/// twelve reserved zero bytes.
pub open spec fn header_bytes(nlibs: u32, len_strings: u32, ext_off: u32) -> Seq<u8> {
    magic_bytes() + spec_u32_to_le_bytes(nlibs) + spec_u32_to_le_bytes(len_strings) + seq![
        2u8,
        0u8,
        0u8,
        0u8,
    ] + spec_u32_to_le_bytes(ext_off) + Seq::new(12, |i: int| 0u8)
}

/// One 24-byte little-endian entry record.
pub open spec fn encode_entry(e: CacheEntry) -> Seq<u8> {
    spec_u32_to_le_bytes(e.flags) + spec_u32_to_le_bytes(e.key_offset) + spec_u32_to_le_bytes(
        e.value_offset,
    ) + spec_u32_to_le_bytes(e.osversion) + spec_u64_to_le_bytes(e.hwcap)
}

/// The concatenated entry records.
pub open spec fn entries_bytes(es: Seq<CacheEntry>) -> Seq<u8>
    decreases es.len(),
{
    if es.len() == 0 {
        Seq::empty()
    } else {
        encode_entry(es[0]) + entries_bytes(es.drop_first())
    }
}

/// The entry record for a sorted descriptor: its interned offsets made
/// absolute by adding the length of the header-plus-entries region.
pub open spec fn entry_for(m: LibModel, st: InternState, base: int) -> CacheEntry {
    CacheEntry {
        flags: m.flags,
        key_offset: (base + find_or_zero(st.offsets, m.name)) as u32,
        value_offset: (base + find_or_zero(st.offsets, m.path)) as u32,
        osversion: m.osversion,
        hwcap: m.hwcap,
    }
}

/// All entry records of the sorted list.
pub open spec fn build_entries(sorted: Seq<LibModel>, st: InternState, base: int) -> Seq<
    CacheEntry,
> {
    Seq::new(sorted.len(), |i: int| entry_for(sorted[i], st, base))
}

/// The extension section: its magic, a subsection count of one, the
/// 16-byte generator subsection descriptor, and the NUL-terminated
/// generator string.
pub open spec fn ext_bytes(ext_off: int, gen: Seq<u8>) -> Seq<u8> {
    spec_u32_to_le_bytes(EXTENSION_MAGIC) + spec_u32_to_le_bytes(1u32) + spec_u32_to_le_bytes(0u32)
        + spec_u32_to_le_bytes(0u32) + spec_u32_to_le_bytes((ext_off + 24) as u32)
        + spec_u32_to_le_bytes(gen.len() as u32) + gen + seq![0u8]
}

/// Zero padding bringing a region of length `pre` up to 4-byte alignment.
pub open spec fn pad_len(pre: int) -> int {
    (4 - pre % 4) % 4
}

/// The complete byte image the build produces for `libs`.
pub open spec fn spec_build(libs: Seq<LibModel>) -> Seq<u8> {
    let sorted = sort_libs(libs);
    let st = intern_all(sorted);
    let n = sorted.len() as int;
    let base = 48 + 24 * n;
    let pre = base + st.table.len();
    let ext_off = pre + pad_len(pre as int);
    header_bytes(n as u32, st.table.len() as u32, ext_off as u32) + entries_bytes(
        build_entries(sorted, st, base),
    ) + st.table + Seq::new(pad_len(pre as int) as nat, |i: int| 0u8) + ext_bytes(
        ext_off as int,
        gen_bytes(),
    )
}

/// The built image stays within 32-bit offsets, so every absolute offset
/// the format stores is exact.
pub open spec fn build_fits(libs: Seq<LibModel>) -> bool {
    48 + 24 * libs.len() + intern_all(sort_libs(libs)).table.len() + 3 + 24 + gen_bytes().len() + 1
        <= 0xffff_ffff
}

// ---------------------------------------------------------------------------
// Parsing.
// ---------------------------------------------------------------------------

/// The little-endian 32-bit value at byte offset `off`.
pub open spec fn u32_at(data: Seq<u8>, off: int) -> u32 {
    spec_u32_from_le_bytes(data.subrange(off, off + 4))
}

/// The little-endian 64-bit value at byte offset `off`.
pub open spec fn u64_at(data: Seq<u8>, off: int) -> u64 {
    spec_u64_from_le_bytes(data.subrange(off, off + 8))
}

/// The entry record decoded from the 24 bytes at offset `off`.
pub open spec fn decode_entry_at(data: Seq<u8>, off: int) -> CacheEntry {
    CacheEntry {
        flags: u32_at(data, off),
        key_offset: u32_at(data, off + 4),
        value_offset: u32_at(data, off + 8),
        osversion: u32_at(data, off + 12),
        hwcap: u64_at(data, off + 16),
    }
}

/// Index of the first NUL byte at or after `i`, or the length when none.
pub open spec fn first_nul_from(b: Seq<u8>, i: int) -> int
    decreases b.len() - i when 0 <= i <= b.len()
{
    if i >= b.len() {
        b.len() as int
    } else if b[i] == 0u8 {
        i
    } else {
        first_nul_from(b, i + 1)
    }
}

/// The first-NUL index lies between `i` and the length; the byte there is
/// NUL when it is in range, and nothing before it is.
pub proof fn lemma_first_nul_bounds(b: Seq<u8>, i: int)
    requires
        0 <= i <= b.len(),
    ensures
        i <= first_nul_from(b, i) <= b.len(),
        first_nul_from(b, i) < b.len() ==> b[first_nul_from(b, i)] == 0u8,
        forall|t: int| i <= t < first_nul_from(b, i) ==> b[t] != 0u8,
    decreases b.len() - i,
{
    if i < b.len() && b[i] != 0u8 {
        lemma_first_nul_bounds(b, i + 1);
    }
}

/// The NUL-terminated string stored at absolute offset `off`: the bytes up
/// to the first NUL, or to the end of the data.
pub open spec fn string_at(data: Seq<u8>, off: int) -> Seq<u8> {
    data.subrange(off, first_nul_from(data, off))
}

/// The non-empty NUL-terminated segments of a string table, in order. A
/// trailing segment without a terminator is not counted.
pub open spec fn split_strings(b: Seq<u8>) -> Seq<Seq<u8>>
    decreases b.len() via split_strings_decreases
{
    if b.len() == 0 {
        Seq::empty()
    } else {
        let k = first_nul_from(b, 0);
        if k == 0 {
            split_strings(b.drop_first())
        } else if k == b.len() {
            Seq::empty()
        } else {
            seq![b.take(k)] + split_strings(b.skip(k + 1))
        }
    }
}

#[via_fn]
proof fn split_strings_decreases(b: Seq<u8>) {
    if b.len() > 0 {
        lemma_first_nul_bounds(b, 0);
    }
}

/// The generator carried by the extension subsection with the generator
/// tag, scanning descriptors `0 .. i` with the later ones taking
/// precedence; out-of-bounds descriptors and data are passed over.
pub open spec fn ext_gen_from(data: Seq<u8>, ext_off: int, i: int) -> Option<Seq<u8>>
    decreases i when i >= 0
{
    if i <= 0 {
        None
    } else {
        let s_off = ext_off + 8 + (i - 1) * 16;
        if s_off + 16 <= data.len() && u32_at(data, s_off) == 0u32 && u32_at(data, s_off + 8)
            + u32_at(data, s_off + 12) <= data.len() {
            Some(
                data.subrange(
                    u32_at(data, s_off + 8) as int,
                    u32_at(data, s_off + 8) + u32_at(data, s_off + 12),
                ),
            )
        } else {
            ext_gen_from(data, ext_off, i - 1)
        }
    }
}

/// The generator string of the image's extension section, if the header
/// points at a section with the right magic that carries one.
pub open spec fn spec_ext_generator(data: Seq<u8>) -> Option<Seq<u8>> {
    let ext_off = u32_at(data, 32) as int;
    if ext_off > 0 && ext_off + 24 <= data.len() && u32_at(data, ext_off) == EXTENSION_MAGIC {
        ext_gen_from(data, ext_off, u32_at(data, ext_off + 4) as int)
    } else {
        None
    }
}

// ---------------------------------------------------------------------------
// Interning facts.
// ---------------------------------------------------------------------------

/// The table an offset list describes: each interned string once, in
/// interning order, each followed by a NUL terminator.
pub open spec fn table_of(offs: Seq<(Seq<u8>, u32)>) -> Seq<u8>
    decreases offs.len(),
{
    if offs.len() == 0 {
        Seq::empty()
    } else {
        table_of(offs.drop_last()) + offs.last().0 + seq![0u8]
    }
}

/// One offsets entry is placed correctly in the table.
pub open spec fn entry_ok(st: InternState, k: int) -> bool {
    let s = st.offsets[k].0;
    let o = st.offsets[k].1 as int;
    &&& o + s.len() + 1 <= st.table.len()
    &&& st.table.subrange(o, o + s.len()) == s
    &&& st.table[o + s.len()] == 0u8
    &&& nul_free(s)
}

/// A well-formed interning state: the table is exactly the interned
/// strings in order, each string is recorded once, and every recorded
/// offset points at its NUL-terminated copy.
pub open spec fn intern_wf(st: InternState) -> bool {
    &&& st.table == table_of(st.offsets)
    &&& forall|k: int| 0 <= k < st.offsets.len() ==> entry_ok(st, k)
    &&& forall|k1: int, k2: int|
        0 <= k1 < k2 < st.offsets.len() ==> (#[trigger] st.offsets[k1].0) != (
        #[trigger] st.offsets[k2].0)
}

/// `assoc_find` fails exactly when no recorded string equals `s`.
pub proof fn lemma_assoc_find_none(offs: Seq<(Seq<u8>, u32)>, s: Seq<u8>)
    ensures
        assoc_find(offs, s) is None <==> forall|k: int|
            0 <= k < offs.len() ==> (#[trigger] offs[k].0) != s,
    decreases offs.len(),
{
    if offs.len() > 0 {
        lemma_assoc_find_none(offs.drop_first(), s);
        assert forall|k: int| 1 <= k < offs.len() implies offs.drop_first()[k - 1] == offs[k] by {}
    }
}

/// `assoc_find` on a lengthened list: earlier entries win; the new entry
/// answers only what was unanswered.
pub proof fn lemma_assoc_find_push(offs: Seq<(Seq<u8>, u32)>, p: (Seq<u8>, u32), s: Seq<u8>)
    ensures
        assoc_find(offs.push(p), s) == (if assoc_find(offs, s) is Some {
            assoc_find(offs, s)
        } else if p.0 == s {
            Some(p.1)
        } else {
            None
        }),
    decreases offs.len(),
{
    let ext = offs.push(p);
    if offs.len() == 0 {
        assert(ext.len() == 1);
        assert(ext[0] == p);
        assert(ext.drop_first() =~= Seq::<(Seq<u8>, u32)>::empty());
        if p.0 == s {
            assert(assoc_find(ext, s) == Some(p.1));
        } else {
            assert(assoc_find(ext, s) == assoc_find(ext.drop_first(), s));
            assert(assoc_find(ext.drop_first(), s) is None);
        }
    } else {
        lemma_assoc_find_push(offs.drop_first(), p, s);
        assert(ext.drop_first() =~= offs.drop_first().push(p));
        assert(ext[0] == offs[0]);
        if offs[0].0 == s {
            assert(assoc_find(ext, s) == Some(offs[0].1));
            assert(assoc_find(offs, s) == Some(offs[0].1));
        } else {
            assert(assoc_find(ext, s) == assoc_find(ext.drop_first(), s));
            assert(assoc_find(offs, s) == assoc_find(offs.drop_first(), s));
        }
    }
}

/// A found offset comes from some recorded entry.
pub proof fn lemma_assoc_find_some(offs: Seq<(Seq<u8>, u32)>, s: Seq<u8>, o: u32)
    requires
        assoc_find(offs, s) == Some(o),
    ensures
        exists|k: int| 0 <= k < offs.len() && offs[k] == (s, o),
    decreases offs.len(),
{
    if offs.len() > 0 {
        if offs[0].0 == s {
            assert(offs[0] == (s, o));
        } else {
            lemma_assoc_find_some(offs.drop_first(), s, o);
            let k = choose|k: int|
                0 <= k < offs.drop_first().len() && offs.drop_first()[k] == (s, o);
            assert(offs[k + 1] == (s, o));
        }
    }
}

/// Interning one string preserves well-formedness, answers lookups of that
/// string, and preserves every earlier answer; the table only grows.
pub proof fn lemma_intern_one(st: InternState, s: Seq<u8>)
    requires
        intern_wf(st),
        nul_free(s),
        assoc_find(st.offsets, s) is None ==> st.table.len() + s.len() + 1 <= 0xffff_ffff,
    ensures
        intern_wf(intern_one(st, s)),
        assoc_find(intern_one(st, s).offsets, s) is Some,
        forall|t: Seq<u8>|
            #[trigger] assoc_find(st.offsets, t) is Some ==> assoc_find(
                intern_one(st, s).offsets,
                t,
            ) == assoc_find(st.offsets, t),
        st.table.len() <= intern_one(st, s).table.len(),
        st.table =~= intern_one(st, s).table.take(st.table.len() as int),
{
    let st2 = intern_one(st, s);
    if assoc_find(st.offsets, s) is Some {
    } else {
        lemma_assoc_find_none(st.offsets, s);
        let o = st.table.len() as u32;
        assert(st2.offsets =~= st.offsets.push((s, o)));
        assert(st2.table =~= st.table + s + seq![0u8]);
        assert(st2.offsets.drop_last() =~= st.offsets);
        assert(st2.offsets.last() == (s, o));
        assert(st2.table =~= table_of(st2.offsets));
        assert forall|k: int| 0 <= k < st2.offsets.len() implies entry_ok(st2, k) by {
            if k < st.offsets.len() {
                assert(entry_ok(st, k));
                assert(st2.offsets[k] == st.offsets[k]);
                let sk = st.offsets[k].0;
                let ok = st.offsets[k].1 as int;
                assert(st2.table.subrange(ok, ok + sk.len()) =~= st.table.subrange(
                    ok,
                    ok + sk.len(),
                ));
                assert(st2.table[ok + sk.len()] == st.table[ok + sk.len()]);
            } else {
                assert(st2.offsets[k] == (s, o));
                assert(st2.table.subrange(o as int, o + s.len()) =~= s);
                assert(st2.table[o + s.len()] == 0u8);
            }
        }
        assert forall|t: Seq<u8>| #[trigger] assoc_find(st.offsets, t) is Some implies assoc_find(
            st2.offsets,
            t,
        ) == assoc_find(st.offsets, t) by {
            lemma_assoc_find_push(st.offsets, (s, o), t);
        }
        lemma_assoc_find_push(st.offsets, (s, o), s);
    }
}

/// Interning a whole descriptor list yields a well-formed state in which
/// every descriptor's name and path are recorded.
pub proof fn lemma_intern_all(libs: Seq<LibModel>)
    requires
        forall|i: int|
            0 <= i < libs.len() ==> nul_free(#[trigger] libs[i].name) && nul_free(libs[i].path),
        intern_all(libs).table.len() <= 0xffff_ffff,
    ensures
        intern_wf(intern_all(libs)),
        forall|i: int|
            0 <= i < libs.len() ==> assoc_find(
                intern_all(libs).offsets,
                #[trigger] libs[i].name,
            ) is Some && assoc_find(intern_all(libs).offsets, libs[i].path) is Some,
    decreases libs.len(),
{
    if libs.len() == 0 {
        assert(intern_all(libs).offsets =~= Seq::<(Seq<u8>, u32)>::empty());
        assert(table_of(intern_all(libs).offsets) =~= Seq::<u8>::empty());
    } else {
        let prev = libs.drop_last();
        let st0 = intern_all(prev);
        let m = libs.last();
        let st1 = intern_one(st0, m.name);
        let st2 = intern_one(st1, m.path);
        assert(intern_all(libs) == st2);
        assert(st0.table.len() <= st1.table.len() <= st2.table.len());
        assert forall|i: int| 0 <= i < prev.len() implies nul_free(#[trigger] prev[i].name)
            && nul_free(prev[i].path) by {
            assert(prev[i] == libs[i]);
            assert(nul_free(libs[i].name));
            assert(nul_free(libs[i].path));
        }
        lemma_intern_all(prev);
        lemma_intern_one(st0, m.name);
        lemma_intern_one(st1, m.path);
        assert(assoc_find(st1.offsets, m.name) is Some);
        assert(assoc_find(st2.offsets, m.name) is Some);
        assert forall|i: int| 0 <= i < libs.len() implies assoc_find(
            st2.offsets,
            #[trigger] libs[i].name,
        ) is Some && assoc_find(st2.offsets, libs[i].path) is Some by {
            if i < libs.len() - 1 {
                assert(libs[i] == prev[i]);
                assert(assoc_find(st0.offsets, libs[i].name) is Some);
                assert(assoc_find(st1.offsets, libs[i].name) is Some);
                assert(assoc_find(st0.offsets, libs[i].path) is Some);
                assert(assoc_find(st1.offsets, libs[i].path) is Some);
            } else {
                assert(libs[i] == m);
            }
        }
    }
}

/// The magic is 20 bytes of ASCII.
pub proof fn lemma_magic_bytes_len()
    ensures
        magic_bytes().len() == 20,
{
    reveal_strlit("glibc-ld.so.cache1.1");
    let s = "glibc-ld.so.cache1.1"@;
    assert(s.len() == 20);
    assert(is_ascii_chars(s));
    is_ascii_chars_encode_utf8(s);
}

/// The generator string is 17 bytes of ASCII.
pub proof fn lemma_gen_bytes_len()
    ensures
        gen_bytes().len() == 17,
{
    reveal_strlit("ldconfig-rs 0.1.0");
    let s = "ldconfig-rs 0.1.0"@;
    assert(s.len() == 17);
    assert(is_ascii_chars(s));
    is_ascii_chars_encode_utf8(s);
}

/// The fixed header occupies 48 bytes.
pub proof fn lemma_header_bytes_len(nlibs: u32, len_strings: u32, ext_off: u32)
    ensures
        header_bytes(nlibs, len_strings, ext_off).len() == 48,
{
    lemma_magic_bytes_len();
    lemma_auto_spec_u32_to_from_le_bytes();
}

/// One entry record occupies 24 bytes.
pub proof fn lemma_encode_entry_len(e: CacheEntry)
    ensures
        encode_entry(e).len() == 24,
{
    lemma_auto_spec_u32_to_from_le_bytes();
    lemma_auto_spec_u64_to_from_le_bytes();
}

/// The entry region occupies 24 bytes per entry.
pub proof fn lemma_entries_bytes_len(es: Seq<CacheEntry>)
    ensures
        entries_bytes(es).len() == 24 * es.len(),
    decreases es.len(),
{
    if es.len() > 0 {
        lemma_encode_entry_len(es[0]);
        lemma_entries_bytes_len(es.drop_first());
    }
}

/// The bytes of the `i`th entry record sit at offset `24 * i` of the entry
/// region.
pub proof fn lemma_entries_bytes_index(es: Seq<CacheEntry>, i: int)
    requires
        0 <= i < es.len(),
    ensures
        entries_bytes(es).subrange(24 * i, 24 * i + 24) =~= encode_entry(es[i]),
    decreases i,
{
    lemma_entries_bytes_len(es);
    lemma_encode_entry_len(es[0]);
    lemma_entries_bytes_len(es.drop_first());
    if i == 0 {
        assert(entries_bytes(es).subrange(0, 24) =~= encode_entry(es[0]));
    } else {
        lemma_entries_bytes_index(es.drop_first(), i - 1);
        assert(entries_bytes(es.drop_first()).subrange(24 * (i - 1), 24 * (i - 1) + 24)
            =~= encode_entry(es.drop_first()[i - 1]));
        assert(es.drop_first()[i - 1] == es[i]);
        assert(entries_bytes(es).subrange(24 * i, 24 * i + 24) =~= entries_bytes(
            es.drop_first(),
        ).subrange(24 * (i - 1), 24 * (i - 1) + 24));
    }
}

/// The first NUL from `i` is exactly `j` when nothing before `j` is NUL
/// and the byte at `j` is.
pub proof fn lemma_first_nul_exact(b: Seq<u8>, i: int, j: int)
    requires
        0 <= i <= j < b.len(),
        forall|t: int| i <= t < j ==> b[t] != 0u8,
        b[j] == 0u8,
    ensures
        first_nul_from(b, i) == j,
    decreases j - i,
{
    if i < j {
        lemma_first_nul_exact(b, i + 1, j);
    }
}

/// A NUL-free string written at `off` and followed by a NUL reads back
/// exactly.
pub proof fn lemma_string_at(data: Seq<u8>, off: int, s: Seq<u8>)
    requires
        0 <= off,
        off + s.len() < data.len(),
        data.subrange(off, off + s.len()) == s,
        nul_free(s),
        data[off + s.len()] == 0u8,
    ensures
        string_at(data, off) == s,
{
    assert forall|t: int| off <= t < off + s.len() implies data[t] != 0u8 by {
        assert(s[t - off] == data.subrange(off, off + s.len())[t - off]);
    }
    lemma_first_nul_exact(data, off, off + s.len());
    assert(string_at(data, off) =~= s);
}

/// Every element of the sorted sequence is an element of the input.
pub proof fn lemma_sorted_elements(libs: Seq<LibModel>)
    ensures
        forall|i: int|
            0 <= i < sort_libs(libs).len() ==> exists|j: int|
                0 <= j < libs.len() && libs[j] == #[trigger] sort_libs(libs)[i],
{
    lemma_sort_libs(libs);
    let sorted = sort_libs(libs);
    sorted.to_multiset_ensures();
    libs.to_multiset_ensures();
    assert forall|i: int| 0 <= i < sorted.len() implies exists|j: int|
        0 <= j < libs.len() && libs[j] == #[trigger] sorted[i] by {
        assert(sorted.contains(sorted[i]));
        assert(sorted.to_multiset().count(sorted[i]) > 0);
        assert(libs.to_multiset().count(sorted[i]) > 0);
        assert(libs.contains(sorted[i]));
        let j = choose|j: int| 0 <= j < libs.len() && libs[j] == sorted[i];
        assert(libs[j] == sorted[i]);
    }
}

/// Where every region of the built image lies, and what it holds.
#[verifier::rlimit(40)]
pub proof fn lemma_build_layout(libs: Seq<LibModel>)
    requires
        build_fits(libs),
    ensures
        ({
            let sorted = sort_libs(libs);
            let st = intern_all(sorted);
            let n = sorted.len() as int;
            let base = 48 + 24 * n;
            let tl = st.table.len() as int;
            let pre = base + tl;
            let ext_off = pre + pad_len(pre);
            let data = spec_build(libs);
            &&& data.len() == ext_off + 24 + gen_bytes().len() + 1
            &&& data.len() <= 0xffff_ffff
            &&& data.subrange(0, 20) == magic_bytes()
            &&& u32_at(data, 20) == n as u32
            &&& u32_at(data, 24) == tl as u32
            &&& data[28] == 2u8
            &&& u32_at(data, 32) == ext_off as u32
            &&& forall|i: int|
                0 <= i < n ==> data.subrange(48 + 24 * i, 48 + 24 * i + 24) == encode_entry(
                    #[trigger] entry_for(sorted[i], st, base),
                )
            &&& data.subrange(base, base + tl) == st.table
            &&& u32_at(data, ext_off) == EXTENSION_MAGIC
            &&& u32_at(data, ext_off + 4) == 1u32
            &&& u32_at(data, ext_off + 8) == 0u32
            &&& u32_at(data, ext_off + 16) == (ext_off + 24) as u32
            &&& u32_at(data, ext_off + 20) == gen_bytes().len() as u32
            &&& data.subrange(ext_off + 24, ext_off + 24 + gen_bytes().len()) == gen_bytes()
        }),
{
    let sorted = sort_libs(libs);
    let st = intern_all(sorted);
    let n = sorted.len() as int;
    let base = 48 + 24 * n;
    let tl = st.table.len() as int;
    let pre = base + tl;
    let pl = pad_len(pre);
    let ext_off = pre + pl;
    let gen = gen_bytes();
    let hh = header_bytes(n as u32, tl as u32, ext_off as u32);
    let ee = entries_bytes(build_entries(sorted, st, base));
    let pp = Seq::new(pl as nat, |i: int| 0u8);
    let xx = ext_bytes(ext_off, gen);
    let data = spec_build(libs);
    lemma_sort_libs(libs);
    lemma_auto_spec_u32_to_from_le_bytes();
    lemma_auto_spec_u64_to_from_le_bytes();
    lemma_magic_bytes_len();
    lemma_gen_bytes_len();
    lemma_header_bytes_len(n as u32, tl as u32, ext_off as u32);
    lemma_entries_bytes_len(build_entries(sorted, st, base));
    assert(data =~= hh + ee + st.table + pp + xx);
    assert(ee.len() == 24 * n);
    assert(xx.len() == 24 + gen.len() + 1);
    assert(data.len() == ext_off + 24 + gen.len() + 1);
    assert(data.subrange(0, 20) =~= magic_bytes());
    assert(data.subrange(20, 24) =~= spec_u32_to_le_bytes(n as u32));
    assert(data.subrange(24, 28) =~= spec_u32_to_le_bytes(tl as u32));
    assert(data[28] == 2u8);
    assert(data.subrange(32, 36) =~= spec_u32_to_le_bytes(ext_off as u32));
    assert forall|i: int| 0 <= i < n implies data.subrange(48 + 24 * i, 48 + 24 * i + 24)
        == encode_entry(#[trigger] entry_for(sorted[i], st, base)) by {
        lemma_entries_bytes_index(build_entries(sorted, st, base), i);
        assert(build_entries(sorted, st, base)[i] == entry_for(sorted[i], st, base));
        assert(data.subrange(48 + 24 * i, 48 + 24 * i + 24) =~= ee.subrange(
            24 * i,
            24 * i + 24,
        ));
    }
    assert(data.subrange(base, base + tl) =~= st.table);
    assert(data.subrange(ext_off, ext_off + 4) =~= spec_u32_to_le_bytes(EXTENSION_MAGIC));
    assert(data.subrange(ext_off + 4, ext_off + 8) =~= spec_u32_to_le_bytes(1u32));
    assert(data.subrange(ext_off + 8, ext_off + 12) =~= spec_u32_to_le_bytes(0u32));
    assert(data.subrange(ext_off + 16, ext_off + 20) =~= spec_u32_to_le_bytes(
        (ext_off + 24) as u32,
    ));
    assert(data.subrange(ext_off + 20, ext_off + 24) =~= spec_u32_to_le_bytes(gen.len() as u32));
    assert(data.subrange(ext_off + 24, ext_off + 24 + gen.len()) =~= gen);
}

/// Round trip: parsing a built image succeeds and recovers, entry by
/// entry in the built (sorted) order, exactly the descriptors that went
/// in — fields, interned name and interned path — with every string
/// offset falling inside the string-table region, and the generator
/// recovered from the extension section.
#[verifier::rlimit(80)]
pub proof fn lemma_build_parse_round_trip(libs: Seq<LibModel>)
    requires
        build_fits(libs),
        forall|i: int|
            0 <= i < libs.len() ==> nul_free(#[trigger] libs[i].name) && nul_free(libs[i].path),
    ensures
        ({
            let sorted = sort_libs(libs);
            let st = intern_all(sorted);
            let n = sorted.len() as int;
            let base = 48 + 24 * n;
            let data = spec_build(libs);
            &&& spec_parse(data) is Ok
            &&& ({
                let m = spec_parse(data)->Ok_0;
                &&& m.nlibs == n as u32
                &&& m.len_strings == st.table.len() as u32
                &&& m.magic == magic_bytes()
                &&& m.entries.len() == n
                &&& (forall|i: int|
                    0 <= i < n ==> {
                        let e = #[trigger] m.entries[i];
                        &&& e.flags == sorted[i].flags
                        &&& e.osversion == sorted[i].osversion
                        &&& e.hwcap == sorted[i].hwcap
                        &&& base <= e.key_offset < base + st.table.len()
                        &&& base <= e.value_offset < base + st.table.len()
                        &&& string_at(data, e.key_offset as int) == sorted[i].name
                        &&& string_at(data, e.value_offset as int) == sorted[i].path
                    })
                &&& m.generator == Some(gen_bytes())
            })
            &&& sorted.to_multiset() == libs.to_multiset()
            &&& libs_sorted(sorted)
        }),
{
    let sorted = sort_libs(libs);
    let st = intern_all(sorted);
    let n = sorted.len() as int;
    let base = 48 + 24 * n;
    let tl = st.table.len() as int;
    let pre = base + tl;
    let ext_off = pre + pad_len(pre);
    let gen = gen_bytes();
    let data = spec_build(libs);
    lemma_build_layout(libs);
    lemma_sort_libs(libs);
    lemma_sorted_elements(libs);
    lemma_auto_spec_u32_to_from_le_bytes();
    lemma_auto_spec_u64_to_from_le_bytes();
    lemma_gen_bytes_len();
    assert forall|i: int| 0 <= i < sorted.len() implies nul_free(#[trigger] sorted[i].name)
        && nul_free(sorted[i].path) by {
        let j = choose|j: int| 0 <= j < libs.len() && libs[j] == sorted[i];
        assert(nul_free(libs[j].name));
    }
    lemma_intern_all(sorted);
    assert(data.len() >= 48);
    assert(u32_at(data, 20) == n as u32);
    assert((n as u32) as int == n);
    assert(48 + 24 * (u32_at(data, 20) as int) <= data.len());
    assert(spec_parse(data) is Ok);
    let m = spec_parse(data)->Ok_0;
    assert(m.nlibs == n as u32);
    assert(m.len_strings == tl as u32);
    assert((tl as u32) as int == tl);
    assert(m.entries.len() == n);
    let es = build_entries(sorted, st, base);
    assert forall|i: int| 0 <= i < n implies {
        let e = #[trigger] m.entries[i];
        &&& e.flags == sorted[i].flags
        &&& e.osversion == sorted[i].osversion
        &&& e.hwcap == sorted[i].hwcap
        &&& base <= e.key_offset < base + st.table.len()
        &&& base <= e.value_offset < base + st.table.len()
        &&& string_at(data, e.key_offset as int) == sorted[i].name
        &&& string_at(data, e.value_offset as int) == sorted[i].path
    } by {
        let off = 48 + 24 * i;
        let ef = entry_for(sorted[i], st, base);
        assert(data.subrange(off, off + 24) == encode_entry(ef));
        lemma_encode_entry_len(ef);
        assert(data.subrange(off, off + 4) =~= encode_entry(ef).subrange(0, 4));
        assert(data.subrange(off + 4, off + 8) =~= encode_entry(ef).subrange(4, 8));
        assert(data.subrange(off + 8, off + 12) =~= encode_entry(ef).subrange(8, 12));
        assert(data.subrange(off + 12, off + 16) =~= encode_entry(ef).subrange(12, 16));
        assert(data.subrange(off + 16, off + 24) =~= encode_entry(ef).subrange(16, 24));
        assert(encode_entry(ef).subrange(0, 4) =~= spec_u32_to_le_bytes(ef.flags));
        assert(encode_entry(ef).subrange(4, 8) =~= spec_u32_to_le_bytes(ef.key_offset));
        assert(encode_entry(ef).subrange(8, 12) =~= spec_u32_to_le_bytes(ef.value_offset));
        assert(encode_entry(ef).subrange(12, 16) =~= spec_u32_to_le_bytes(ef.osversion));
        assert(encode_entry(ef).subrange(16, 24) =~= spec_u64_to_le_bytes(ef.hwcap));
        assert(m.entries[i] == decode_entry_at(data, off));
        assert(m.entries[i] == ef);
        // The interned offsets are exact and in range.
        let nm = sorted[i].name;
        let pt = sorted[i].path;
        assert(assoc_find(st.offsets, nm) is Some);
        let on = assoc_find(st.offsets, nm)->0;
        lemma_assoc_find_some(st.offsets, nm, on);
        let kn = choose|k: int| 0 <= k < st.offsets.len() && st.offsets[k] == (nm, on);
        assert(entry_ok(st, kn));
        assert(on + nm.len() + 1 <= tl);
        assert(find_or_zero(st.offsets, nm) == on as int);
        assert(ef.key_offset == (base + on) as u32);
        assert(base + on <= 0xffff_ffff);
        assert(ef.key_offset as int == base + on);
        assert(data.subrange(base, base + tl) == st.table);
        assert(data.subrange(base + on, base + on + nm.len()) =~= st.table.subrange(
            on as int,
            on + nm.len(),
        ));
        assert(data[base + on + nm.len()] == st.table[on + nm.len()]);
        lemma_string_at(data, base + on, nm);
        assert(assoc_find(st.offsets, pt) is Some);
        let op = assoc_find(st.offsets, pt)->0;
        lemma_assoc_find_some(st.offsets, pt, op);
        let kp = choose|k: int| 0 <= k < st.offsets.len() && st.offsets[k] == (pt, op);
        assert(entry_ok(st, kp));
        assert(op + pt.len() + 1 <= tl);
        assert(find_or_zero(st.offsets, pt) == op as int);
        assert(ef.value_offset as int == base + op);
        assert(data.subrange(base + op, base + op + pt.len()) =~= st.table.subrange(
            op as int,
            op + pt.len(),
        ));
        assert(data[base + op + pt.len()] == st.table[op + pt.len()]);
        lemma_string_at(data, base + op, pt);
    }
    // The extension section yields the generator.
    assert(u32_at(data, 32) == ext_off as u32);
    assert((ext_off as u32) as int == ext_off);
    assert(ext_off > 0);
    assert(ext_off + 24 <= data.len());
    assert(u32_at(data, ext_off) == EXTENSION_MAGIC);
    assert(u32_at(data, ext_off + 4) == 1u32);
    let s_off = ext_off + 8;
    assert(u32_at(data, s_off) == 0u32);
    assert(u32_at(data, s_off + 8) == (ext_off + 24) as u32);
    assert((ext_off + 24) as u32 as int == ext_off + 24);
    assert(u32_at(data, s_off + 12) == gen.len() as u32);
    assert(gen.len() as u32 as int == gen.len());
    assert(s_off + 16 <= data.len());
    assert(u32_at(data, s_off + 8) + u32_at(data, s_off + 12) <= data.len());
    assert(ext_gen_from(data, ext_off, 1) == Some(
        data.subrange(ext_off + 24, ext_off + 24 + gen.len()),
    ));
    assert(spec_ext_generator(data) == Some(gen));
}

// ---------------------------------------------------------------------------
// Descriptor models: how an `ElfLibrary` maps into the codec's model.
// ---------------------------------------------------------------------------

/// Index of the last path separator in `p`, or -1 when there is none.
pub open spec fn last_slash(p: Seq<u8>) -> int
    decreases p.len(),
{
    if p.len() == 0 {
        -1
    } else if p[p.len() - 1] == 0x2Fu8 {
        p.len() - 1
    } else {
        last_slash(p.drop_last())
    }
}

/// Any separator position with no separator after it is the last one.
pub proof fn lemma_last_slash_exact(p: Seq<u8>, j: int)
    requires
        0 <= j < p.len(),
        p[j] == 0x2Fu8,
        forall|t: int| j < t < p.len() ==> p[t] != 0x2Fu8,
    ensures
        last_slash(p) == j,
    decreases p.len(),
{
    if j < p.len() - 1 {
        lemma_last_slash_exact(p.drop_last(), j);
        assert(forall|t: int| 0 <= t < p.len() - 1 ==> p.drop_last()[t] == p[t]);
    }
}

/// A path with no separator has no last-separator index.
pub proof fn lemma_last_slash_none(p: Seq<u8>)
    requires
        forall|t: int| 0 <= t < p.len() ==> p[t] != 0x2Fu8,
    ensures
        last_slash(p) == -1,
    decreases p.len(),
{
    if p.len() > 0 {
        lemma_last_slash_none(p.drop_last());
        assert(forall|t: int| 0 <= t < p.len() - 1 ==> p.drop_last()[t] == p[t]);
    }
}

/// The bare file name of a path: everything after the last separator.
pub open spec fn file_name_bytes(p: Seq<u8>) -> Seq<u8> {
    p.subrange(last_slash(p) + 1, p.len() as int)
}

/// Encoding distributes over concatenation.
pub proof fn lemma_encode_utf8_concat(a: Seq<char>, b: Seq<char>)
    ensures
        encode_utf8(a + b) == encode_utf8(a) + encode_utf8(b),
    decreases a.len(),
{
    if a.len() == 0 {
        assert(a + b =~= b);
        assert(encode_utf8(a) =~= Seq::<u8>::empty());
        assert(encode_utf8(a) + encode_utf8(b) =~= encode_utf8(b));
    } else {
        lemma_encode_utf8_concat(a.drop_first(), b);
        assert((a + b).drop_first() =~= a.drop_first() + b);
        assert((a + b)[0] == a[0]);
        assert(encode_scalar(a[0] as u32) + (encode_utf8(a.drop_first()) + encode_utf8(b))
            =~= (encode_scalar(a[0] as u32) + encode_utf8(a.drop_first())) + encode_utf8(b));
    }
}

/// The encoding of a character other than the separator holds no
/// separator byte: a one-byte encoding is the character's own value, and
/// every byte of a longer encoding has its high bit set.
pub proof fn lemma_encode_scalar_no_slash(c: char)
    requires
        c != '/',
    ensures
        forall|t: int|
            0 <= t < encode_scalar(c as u32).len() ==> #[trigger] encode_scalar(c as u32)[t]
                != 0x2Fu8,
{
    let u = c as u32;
    vstd::utf8::char_is_scalar(c);
    if has_width_1_encoding(u) {
        if u == 47 {
            vstd::utf8::char_u32_cast(c, u);
            reveal_strlit("/");
            assert('/' as u32 == 47);
            vstd::utf8::char_u32_cast('/', 47);
            assert(false);
        }
        assert(leading_byte_width_1(u) != 0x2Fu8) by (bit_vector)
            requires u <= 0x7F, u != 47,
        {}
    } else {
        assert(leading_byte_width_2(u) >= 0xC0u8) by (bit_vector);
        assert(leading_byte_width_3(u) >= 0xE0u8) by (bit_vector);
        assert(leading_byte_width_4(u) >= 0xF0u8) by (bit_vector);
        assert(last_continuation_byte(u) >= 0x80u8) by (bit_vector);
        assert(second_last_continuation_byte(u) >= 0x80u8) by (bit_vector);
        assert(third_last_continuation_byte(u) >= 0x80u8) by (bit_vector);
    }
}

/// The encoding of a separator-free string holds no separator byte.
pub proof fn lemma_encode_no_slash(s: Seq<char>)
    requires
        forall|t: int| 0 <= t < s.len() ==> s[t] != '/',
    ensures
        forall|t: int| 0 <= t < encode_utf8(s).len() ==> encode_utf8(s)[t] != 0x2Fu8,
    decreases s.len(),
{
    if s.len() > 0 {
        lemma_encode_scalar_no_slash(s[0]);
        assert forall|t: int| 0 <= t < s.drop_first().len() implies s.drop_first()[t] != '/' by {
            assert(s.drop_first()[t] == s[t + 1]);
        }
        lemma_encode_no_slash(s.drop_first());
        let head = encode_scalar(s[0] as u32);
        let tail = encode_utf8(s.drop_first());
        assert(encode_utf8(s) == head + tail);
        assert forall|t: int| 0 <= t < encode_utf8(s).len() implies encode_utf8(s)[t]
            != 0x2Fu8 by {
            if t < head.len() {
                assert(encode_utf8(s)[t] == head[t]);
            } else {
                assert(encode_utf8(s)[t] == tail[t - head.len()]);
            }
        }
    }
}

/// The file name of an encoded path is the encoding of the path's file
/// name: the separator byte occurs exactly at the separator characters.
pub proof fn lemma_file_name_bytes_encode(p: Seq<char>)
    ensures
        file_name_bytes(encode_utf8(p)) == encode_utf8(crate::pathname::file_name_chars(p)),
{
    let ls = crate::pathname::last_sep(p);
    crate::pathname::lemma_last_sep_props(p);
    let fname = crate::pathname::file_name_chars(p);
    let eb = encode_utf8(p);
    if ls == -1 {
        assert forall|t: int| 0 <= t < p.len() implies p[t] != '/' by {}
        lemma_encode_no_slash(p);
        lemma_last_slash_none(eb);
        assert(fname =~= p);
        assert(file_name_bytes(eb) =~= eb);
    } else {
        let pre = p.take(ls + 1);
        assert(p =~= pre + fname);
        lemma_encode_utf8_concat(pre, fname);
        assert(eb == encode_utf8(pre) + encode_utf8(fname));
        // The last byte of the encoded prefix is the separator.
        let pre2 = pre.drop_last();
        assert(pre =~= pre2 + seq!['/']);
        lemma_encode_utf8_concat(pre2, seq!['/']);
        reveal_strlit("/");
        assert('/' as u32 == 47);
        let sl = seq!['/'];
        assert(sl.len() == 1);
        assert(sl[0] == '/');
        assert(sl.drop_first() =~= Seq::<char>::empty());
        assert(encode_utf8(sl) == encode_scalar(sl[0] as u32) + encode_utf8(sl.drop_first()));
        assert(encode_utf8(sl.drop_first()) =~= Seq::<u8>::empty());
        assert(encode_utf8(sl) =~= encode_scalar(47));
        assert(has_width_1_encoding(47));
        assert(leading_byte_width_1(47) == 0x2Fu8) by (bit_vector);
        assert(encode_scalar(47) =~= seq![0x2Fu8]);
        let el = encode_utf8(pre).len() as int;
        assert(el >= 1);
        assert(eb[el - 1] == 0x2Fu8);
        // Nothing after it is a separator byte.
        assert forall|t: int| 0 <= t < fname.len() implies fname[t] != '/' by {
            assert(fname[t] == p[ls + 1 + t]);
        }
        lemma_encode_no_slash(fname);
        assert forall|t: int| el - 1 < t < eb.len() implies eb[t] != 0x2Fu8 by {
            assert(eb[t] == encode_utf8(fname)[t - el]);
        }
        lemma_last_slash_exact(eb, el - 1);
        assert(file_name_bytes(eb) =~= encode_utf8(fname));
    }
}

/// Whether `pre` is a component-wise prefix of `p`: equal to it, or a
/// leading part that ends at a separator.
pub open spec fn path_prefix_matches(p: Seq<u8>, pre: Seq<u8>) -> bool {
    pre.len() > 0 && (p == pre || (p.len() > pre.len() && p.subrange(0, pre.len() as int) == pre
        && (pre[pre.len() - 1] == 0x2Fu8 || p[pre.len() as int] == 0x2Fu8)))
}

/// Where the stripped remainder of `p` starts once `pre` matched.
pub open spec fn strip_start(p: Seq<u8>, pre: Seq<u8>) -> int {
    if p == pre {
        p.len() as int
    } else if pre[pre.len() - 1] == 0x2Fu8 {
        pre.len() as int
    } else {
        pre.len() + 1int
    }
}

/// The path as persisted: when a root prefix is configured and matches,
/// the remainder re-rooted at a single leading separator; otherwise the
/// path unchanged.
pub open spec fn rewrite_path_bytes(p: Seq<u8>, prefix: Option<Seq<u8>>) -> Seq<u8> {
    match prefix {
        None => p,
        Some(pre) => if path_prefix_matches(p, pre) {
            seq![0x2Fu8] + p.subrange(strip_start(p, pre), p.len() as int)
        } else {
            p
        },
    }
}

/// The byte view of an optional prefix argument.
pub open spec fn opt_prefix_view(prefix: Option<&String>) -> Option<Seq<u8>> {
    match prefix {
        Some(p) => Some(encode_utf8(p@)),
        None => None,
    }
}

/// The codec model of one descriptor under a given root prefix.
pub open spec fn lib_model(l: ElfLibrary, prefix: Option<Seq<u8>>) -> LibModel {
    let pbytes = encode_utf8(l.path@);
    LibModel {
        name: file_name_bytes(pbytes),
        path: rewrite_path_bytes(pbytes, prefix),
        flags: spec_arch_to_flags(l.arch, l.is_64bit, l.is_hardfloat),
        osversion: l.osversion,
        hwcap: match l.hwcap {
            Some(h) => h,
            None => 0u64,
        },
    }
}

/// The codec models of a descriptor list.
pub open spec fn lib_models(ls: Seq<ElfLibrary>, prefix: Option<Seq<u8>>) -> Seq<LibModel> {
    Seq::new(ls.len(), |i: int| lib_model(ls[i], prefix))
}

// ---------------------------------------------------------------------------
// Executable helpers.
// ---------------------------------------------------------------------------

/// Whether two byte vectors hold the same bytes.
fn bytes_eq(a: &Vec<u8>, b: &Vec<u8>) -> (r: bool)
    ensures
        r == (a@ == b@),
{
    if a.len() != b.len() {
        return false;
    }
    let mut i: usize = 0;
    while i < a.len()
        invariant
            a@.len() == b@.len(),
            0 <= i <= a@.len(),
            forall|t: int| 0 <= t < i ==> a@[t] == b@[t],
        decreases a@.len() - i,
    {
        if a[i] != b[i] {
            return false;
        }
        i = i + 1;
    }
    proof {
        assert(a@ =~= b@);
    }
    true
}

/// Lexicographic comparison of two byte vectors, as `str::cmp` orders the
/// underlying strings.
fn cmp_bytes(a: &Vec<u8>, b: &Vec<u8>) -> (r: core::cmp::Ordering)
    ensures
        r == spec_bytes_cmp(a@, b@),
{
    let mut i: usize = 0;
    loop
        invariant
            0 <= i,
            i <= a@.len() || i <= b@.len(),
            spec_bytes_cmp(a@, b@) == spec_bytes_cmp_from(a@, b@, i as int),
        decreases a@.len() + b@.len() - i,
    {
        if i >= a.len() && i >= b.len() {
            return core::cmp::Ordering::Equal;
        }
        if i >= a.len() {
            return core::cmp::Ordering::Less;
        }
        if i >= b.len() {
            return core::cmp::Ordering::Greater;
        }
        let x = a[i];
        let y = b[i];
        if x < y {
            return core::cmp::Ordering::Less;
        }
        if x > y {
            return core::cmp::Ordering::Greater;
        }
        i = i + 1;
    }
}

/// Skipping entries that do not hold `s` leaves the lookup unchanged.
pub proof fn lemma_assoc_find_skip(offs: Seq<(Seq<u8>, u32)>, s: Seq<u8>, k: int)
    requires
        0 <= k <= offs.len(),
        forall|t: int| 0 <= t < k ==> (#[trigger] offs[t].0) != s,
    ensures
        assoc_find(offs, s) == assoc_find(offs.skip(k), s),
    decreases k,
{
    if k == 0 {
        assert(offs.skip(0) =~= offs);
    } else {
        assert(offs[0].0 != s);
        assert forall|t: int| 0 <= t < k - 1 implies (#[trigger] offs.drop_first()[t].0) != s by {
            assert(offs.drop_first()[t] == offs[t + 1]);
        }
        lemma_assoc_find_skip(offs.drop_first(), s, k - 1);
        assert(offs.drop_first().skip(k - 1) =~= offs.skip(k));
    }
}

/// The model of an executable offsets list.
pub open spec fn offs_model(v: Seq<(Vec<u8>, u32)>) -> Seq<(Seq<u8>, u32)> {
    Seq::new(v.len(), |i: int| (v[i].0@, v[i].1))
}

/// Look up the first offset recorded for `s`.
fn find_offset(offsets: &Vec<(Vec<u8>, u32)>, s: &Vec<u8>) -> (r: Option<u32>)
    ensures
        r == assoc_find(offs_model(offsets@), s@),
{
    let ghost m = offs_model(offsets@);
    let mut k: usize = 0;
    while k < offsets.len()
        invariant
            0 <= k <= offsets@.len(),
            m == offs_model(offsets@),
            forall|t: int| 0 <= t < k ==> (#[trigger] m[t].0) != s@,
        decreases offsets@.len() - k,
    {
        let pair = &offsets[k];
        if bytes_eq(&pair.0, s) {
            proof {
                lemma_assoc_find_skip(m, s@, k as int);
                assert(m.skip(k as int)[0] == m[k as int]);
                assert(m.skip(k as int).len() > 0);
            }
            return Some(pair.1);
        }
        k = k + 1;
    }
    proof {
        lemma_assoc_find_skip(m, s@, k as int);
        assert(m.skip(k as int) =~= Seq::<(Seq<u8>, u32)>::empty());
    }
    None
}

/// Intern one string into the table: a string already present keeps its
/// first offset, a new one is appended with its NUL terminator and its
/// offset is recorded.
pub fn add_string(table: &mut Vec<u8>, offsets: &mut Vec<(Vec<u8>, u32)>, s: &Vec<u8>)
    requires
        assoc_find(offs_model(old(offsets)@), s@) is None ==> old(table)@.len() + s@.len() + 1
            <= 0xffff_ffff,
    ensures
        ({
            let st = intern_one(
                InternState { table: old(table)@, offsets: offs_model(old(offsets)@) },
                s@,
            );
            final(table)@ == st.table && offs_model(final(offsets)@) == st.offsets
        }),
{
    let found = find_offset(offsets, s);
    match found {
        Some(_) => {},
        None => {
            let off = table.len() as u32;
            offsets.push((s.clone(), off));
            table.extend_from_slice(s.as_slice());
            table.push(0u8);
            proof {
                let st = intern_one(
                    InternState { table: old(table)@, offsets: offs_model(old(offsets)@) },
                    s@,
                );
                assert(table@ =~= st.table);
                assert(offs_model(offsets@) =~= st.offsets);
            }
        },
    }
}

/// Append the little-endian bytes of a 32-bit value.
fn push_u32(out: &mut Vec<u8>, x: u32)
    ensures
        final(out)@ == old(out)@ + spec_u32_to_le_bytes(x),
{
    let b = u32_to_le_bytes(x);
    out.extend_from_slice(b.as_slice());
}

/// Append the little-endian bytes of a 64-bit value.
fn push_u64(out: &mut Vec<u8>, x: u64)
    ensures
        final(out)@ == old(out)@ + spec_u64_to_le_bytes(x),
{
    let b = u64_to_le_bytes(x);
    out.extend_from_slice(b.as_slice());
}

/// The bare file name of a descriptor's path, as bytes.
fn lib_name_bytes(l: &ElfLibrary) -> (r: Vec<u8>)
    ensures
        r@ == file_name_bytes(encode_utf8(l.path@)),
{
    let pb = l.path.as_str().as_bytes_vec();
    let mut k: usize = pb.len();
    while k > 0 && pb[k - 1] != 0x2Fu8
        invariant
            0 <= k <= pb@.len(),
            forall|t: int| k <= t < pb@.len() ==> pb@[t] != 0x2Fu8,
        decreases k,
    {
        k = k - 1;
    }
    proof {
        if k == 0 {
            lemma_last_slash_none(pb@);
        } else {
            lemma_last_slash_exact(pb@, k - 1);
        }
    }
    let out = vstd::slice::slice_to_vec(vstd::slice::slice_subrange(pb.as_slice(), k, pb.len()));
    proof {
        assert(out@ =~= file_name_bytes(encode_utf8(l.path@)));
    }
    out
}

/// Whether `p` starts with the bytes of `pre`.
fn starts_with_bytes(p: &Vec<u8>, pre: &Vec<u8>) -> (r: bool)
    ensures
        r == (p@.len() >= pre@.len() && p@.subrange(0, pre@.len() as int) == pre@),
{
    if p.len() < pre.len() {
        return false;
    }
    let mut i: usize = 0;
    while i < pre.len()
        invariant
            0 <= i <= pre@.len(),
            pre@.len() <= p@.len(),
            forall|t: int| 0 <= t < i ==> p@[t] == pre@[t],
        decreases pre@.len() - i,
    {
        if p[i] != pre[i] {
            proof {
                assert(p@.subrange(0, pre@.len() as int)[i as int] != pre@[i as int]);
            }
            return false;
        }
        i = i + 1;
    }
    proof {
        assert(p@.subrange(0, pre@.len() as int) =~= pre@);
    }
    true
}

/// The persisted path of a descriptor, as bytes: its path, re-rooted when
/// the configured prefix matches.
fn lib_path_bytes(l: &ElfLibrary, prefix: Option<&Vec<u8>>) -> (r: Vec<u8>)
    ensures
        ({
            let pfx = match prefix {
                Some(p) => Some(p@),
                None => None,
            };
            r@ == rewrite_path_bytes(encode_utf8(l.path@), pfx)
        }),
{
    let pb = l.path.as_str().as_bytes_vec();
    match prefix {
        None => pb,
        Some(pre) => {
            if pre.len() == 0 {
                return pb;
            }
            if bytes_eq(&pb, pre) {
                let mut out: Vec<u8> = Vec::new();
                out.push(0x2Fu8);
                proof {
                    assert(out@ =~= rewrite_path_bytes(encode_utf8(l.path@), Some(pre@)));
                }
                return out;
            }
            let is_pref = starts_with_bytes(&pb, pre);
            if is_pref && pb.len() > pre.len() {
                let boundary = pre[pre.len() - 1] == 0x2Fu8 || pb[pre.len()] == 0x2Fu8;
                if boundary {
                    let start = if pre[pre.len() - 1] == 0x2Fu8 {
                        pre.len()
                    } else {
                        pre.len() + 1
                    };
                    let mut out: Vec<u8> = Vec::new();
                    out.push(0x2Fu8);
                    let rest = vstd::slice::slice_subrange(pb.as_slice(), start, pb.len());
                    out.extend_from_slice(rest);
                    proof {
                        assert(out@ =~= rewrite_path_bytes(encode_utf8(l.path@), Some(pre@)));
                    }
                    return out;
                }
            }
            pb
        },
    }
}

/// Inserting at the first position whose element `x` strictly precedes is
/// exactly what stable insertion does.
pub proof fn lemma_insert_lib_at(x: LibModel, s: Seq<LibModel>, pos: int)
    requires
        0 <= pos <= s.len(),
        forall|t: int| 0 <= t < pos ==> !lib_before(x, #[trigger] s[t]),
        pos < s.len() ==> lib_before(x, s[pos]),
    ensures
        insert_lib(x, s) == s.subrange(0, pos) + seq![x] + s.subrange(pos, s.len() as int),
    decreases pos,
{
    if pos == 0 {
        if s.len() == 0 {
            assert(insert_lib(x, s) =~= s.subrange(0, 0) + seq![x] + s.subrange(
                0,
                s.len() as int,
            ));
        } else {
            assert(insert_lib(x, s) == seq![x] + s);
            assert(seq![x] + s =~= s.subrange(0, 0) + seq![x] + s.subrange(0, s.len() as int));
        }
    } else {
        assert(!lib_before(x, s[0]));
        let d = s.drop_first();
        assert forall|t: int| 0 <= t < pos - 1 implies !lib_before(x, #[trigger] d[t]) by {
            assert(d[t] == s[t + 1]);
        }
        assert(pos - 1 < d.len() ==> lib_before(x, d[pos - 1]));
        lemma_insert_lib_at(x, d, pos - 1);
        assert(insert_lib(x, s) == seq![s[0]] + insert_lib(x, d));
        assert(seq![s[0]] + (d.subrange(0, pos - 1) + seq![x] + d.subrange(
            pos - 1,
            d.len() as int,
        )) =~= s.subrange(0, pos) + seq![x] + s.subrange(pos, s.len() as int));
    }
}

/// The interning table of a prefix of the descriptor list never exceeds
/// the full table.
pub proof fn lemma_intern_all_prefix_len(libs: Seq<LibModel>, i: int)
    requires
        0 <= i <= libs.len(),
    ensures
        intern_all(libs.take(i)).table.len() <= intern_all(libs).table.len(),
    decreases libs.len() - i,
{
    if i == libs.len() {
        assert(libs.take(i) =~= libs);
    } else {
        lemma_intern_all_prefix_len(libs, i + 1);
        assert(libs.take(i + 1).drop_last() =~= libs.take(i));
        assert(libs.take(i + 1).last() == libs[i]);
        assert(intern_all(libs.take(i + 1)) == intern_lib(intern_all(libs.take(i)), libs[i]));
    }
}

/// Whether the descriptor behind `(xn, xh)` comes strictly before `y` in
/// the built order: name descending, then bitmask descending.
fn lib_before_exec(xn: &Vec<u8>, xh: u64, y: &ElfLibrary) -> (r: bool)
    ensures
        ({
            let yn = file_name_bytes(encode_utf8(y.path@));
            let yh = match y.hwcap {
                Some(h) => h,
                None => 0u64,
            };
            r == (spec_bytes_cmp(yn, xn@) == core::cmp::Ordering::Less || (spec_bytes_cmp(yn, xn@)
                == core::cmp::Ordering::Equal && yh < xh))
        }),
{
    let yn = lib_name_bytes(y);
    let yh = match y.hwcap {
        Some(h) => h,
        None => 0u64,
    };
    let c = cmp_bytes(&yn, xn);
    match c {
        core::cmp::Ordering::Less => true,
        core::cmp::Ordering::Equal => yh < xh,
        core::cmp::Ordering::Greater => false,
    }
}

/// Stable insertion sort of the descriptors by the build's key order.
fn sort_entries(libs: &Vec<ElfLibrary>, Ghost(pfx): Ghost<Option<Seq<u8>>>) -> (r: Vec<ElfLibrary>)
    ensures
        lib_models(r@, pfx) == sort_libs(lib_models(libs@, pfx)),
        r@.len() == libs@.len(),
{
    let ghost all = lib_models(libs@, pfx);
    let mut out: Vec<ElfLibrary> = Vec::new();
    let mut i: usize = 0;
    while i < libs.len()
        invariant
            0 <= i <= libs@.len(),
            all == lib_models(libs@, pfx),
            out@.len() == i,
            lib_models(out@, pfx) == sort_libs(all.take(i as int)),
        decreases libs@.len() - i,
    {
        let x = libs[i].duplicate();
        let ghost mx = lib_model(x, pfx);
        let xn = lib_name_bytes(&x);
        let xh = match x.hwcap {
            Some(h) => h,
            None => 0u64,
        };
        let ghost cur = lib_models(out@, pfx);
        let mut pos: usize = 0;
        while pos < out.len() && !lib_before_exec(&xn, xh, &out[pos])
            invariant
                0 <= pos <= out@.len(),
                cur == lib_models(out@, pfx),
                mx == lib_model(x, pfx),
                xn@ == mx.name,
                xh == mx.hwcap,
                forall|t: int| 0 <= t < pos ==> !lib_before(mx, #[trigger] cur[t]),
            decreases out@.len() - pos,
        {
            proof {
                assert(cur[pos as int] == lib_model(out@[pos as int], pfx));
            }
            pos = pos + 1;
        }
        proof {
            if pos < out.len() {
                assert(cur[pos as int] == lib_model(out@[pos as int], pfx));
                assert(lib_before(mx, cur[pos as int]));
            }
            lemma_insert_lib_at(mx, cur, pos as int);
        }
        out.insert(pos, x);
        proof {
            assert(lib_models(out@, pfx) =~= cur.subrange(0, pos as int) + seq![mx]
                + cur.subrange(pos as int, cur.len() as int));
            assert(lib_models(out@, pfx) == insert_lib(mx, cur));
            assert(all.take(i + 1).drop_last() =~= all.take(i as int));
            assert(all.take(i + 1).last() == all[i as int]);
            assert(all[i as int] == mx);
            assert(sort_libs(all.take(i + 1)) == insert_lib(mx, sort_libs(all.take(i as int))));
        }
        i = i + 1;
    }
    proof {
        assert(all.take(libs@.len() as int) =~= all);
    }
    out
}

/// Appending one entry extends the entry region by its 24-byte record.
pub proof fn lemma_entries_bytes_snoc(es: Seq<CacheEntry>, e: CacheEntry)
    ensures
        entries_bytes(es.push(e)) == entries_bytes(es) + encode_entry(e),
    decreases es.len(),
{
    if es.len() == 0 {
        assert(es.push(e).drop_first() =~= Seq::<CacheEntry>::empty());
        assert(es.push(e)[0] == e);
        assert(es =~= Seq::<CacheEntry>::empty());
        assert(entries_bytes(es.push(e)) =~= entries_bytes(es) + encode_entry(e));
    } else {
        lemma_entries_bytes_snoc(es.drop_first(), e);
        assert(es.push(e).drop_first() =~= es.drop_first().push(e));
        assert(es.push(e)[0] == es[0]);
        assert(encode_entry(es[0]) + (entries_bytes(es.drop_first()) + encode_entry(e)) =~= (
        encode_entry(es[0]) + entries_bytes(es.drop_first())) + encode_entry(e));
    }
}

/// Append one 24-byte little-endian entry record.
fn emit_entry(out: &mut Vec<u8>, flags: u32, key_offset: u32, value_offset: u32, osversion: u32, hwcap: u64)
    ensures
        final(out)@ == old(out)@ + encode_entry(
            CacheEntry { flags, key_offset, value_offset, osversion, hwcap },
        ),
{
    push_u32(out, flags);
    push_u32(out, key_offset);
    push_u32(out, value_offset);
    push_u32(out, osversion);
    push_u64(out, hwcap);
    proof {
        assert(out@ =~= old(out)@ + encode_entry(
            CacheEntry { flags, key_offset, value_offset, osversion, hwcap },
        ));
    }
}

/// Serialize the descriptor list into the byte-exact on-disk cache format:
/// sort by file name descending then bitmask descending, intern each file
/// name and rewritten path once, emit the 48-byte header, the 24-byte
/// entries with absolute string offsets, the string table, alignment
/// padding, and the generator extension section.
#[verifier::rlimit(80)]
pub fn build_cache(libraries: &Vec<ElfLibrary>, prefix: Option<&String>) -> (r: Vec<u8>)
    requires
        build_fits(lib_models(libraries@, opt_prefix_view(prefix))),
    ensures
        r@ == spec_build(lib_models(libraries@, opt_prefix_view(prefix))),
{
    let ghost pfx = opt_prefix_view(prefix);
    let ghost all = lib_models(libraries@, pfx);
    let pre_bytes: Option<Vec<u8>> = match prefix {
        Some(p) => Some(p.as_str().as_bytes_vec()),
        None => None,
    };
    let sorted = sort_entries(libraries, Ghost(pfx));
    let ghost sortedm = lib_models(sorted@, pfx);
    proof {
        assert(sortedm == sort_libs(all));
    }
    let n = sorted.len();

    // Intern every file name and path, in sorted order.
    let mut table: Vec<u8> = Vec::new();
    let mut offsets: Vec<(Vec<u8>, u32)> = Vec::new();
    let mut i: usize = 0;
    while i < n
        invariant
            0 <= i <= n,
            n == sorted@.len(),
            sortedm == lib_models(sorted@, pfx),
            sortedm == sort_libs(all),
            build_fits(all),
            all.len() == n,
            ({
                let st = intern_all(sortedm.take(i as int));
                table@ == st.table && offs_model(offsets@) == st.offsets
            }),
            ({
                match prefix {
                    Some(p) => pre_bytes matches Some(v) && v@ == encode_utf8(p@),
                    None => pre_bytes is None,
                }
            }),
            pfx == opt_prefix_view(prefix),
        decreases n - i,
    {
        let ghost st0 = intern_all(sortedm.take(i as int));
        let ghost st1 = intern_one(st0, sortedm[i as int].name);
        let ghost st2 = intern_one(st1, sortedm[i as int].path);
        proof {
            assert(sortedm.take(i + 1).drop_last() =~= sortedm.take(i as int));
            assert(sortedm.take(i + 1).last() == sortedm[i as int]);
            assert(intern_all(sortedm.take(i + 1)) == st2);
            lemma_intern_all_prefix_len(sortedm, i + 1);
            assert(st1.table.len() <= st2.table.len());
            assert(st2.table.len() <= intern_all(sortedm).table.len());
        }
        let lib = &sorted[i];
        let nm = lib_name_bytes(lib);
        proof {
            assert(lib_models(sorted@, pfx)[i as int] == lib_model(sorted@[i as int], pfx));
            assert(nm@ == sortedm[i as int].name);
        }
        add_string(&mut table, &mut offsets, &nm);
        let pref = match &pre_bytes {
            Some(v) => Some(v),
            None => None,
        };
        let pt = lib_path_bytes(lib, pref);
        proof {
            assert(pt@ == sortedm[i as int].path);
        }
        add_string(&mut table, &mut offsets, &pt);
        i = i + 1;
    }
    proof {
        assert(sortedm.take(n as int) =~= sortedm);
    }
    let ghost st = intern_all(sortedm);
    let tl = table.len();
    let base = 48 + 24 * n;
    let pre_len = base + tl;
    let pad = (4 - pre_len % 4) % 4;
    let ext_off = pre_len + pad;

    // Emit the header.
    let mut out: Vec<u8> = Vec::new();
    let magic = "glibc-ld.so.cache1.1";
    out.extend_from_slice(magic.as_bytes());
    push_u32(&mut out, n as u32);
    push_u32(&mut out, tl as u32);
    out.push(2u8);
    out.push(0u8);
    out.push(0u8);
    out.push(0u8);
    push_u32(&mut out, ext_off as u32);
    let mut z: usize = 0;
    while z < 12
        invariant
            0 <= z <= 12,
            out@ == magic_bytes() + spec_u32_to_le_bytes(n as u32) + spec_u32_to_le_bytes(
                tl as u32,
            ) + seq![2u8, 0u8, 0u8, 0u8] + spec_u32_to_le_bytes(ext_off as u32) + Seq::new(
                z as nat,
                |t: int| 0u8,
            ),
        decreases 12 - z,
    {
        out.push(0u8);
        proof {
            assert(Seq::new((z + 1) as nat, |t: int| 0u8) =~= Seq::new(z as nat, |t: int| 0u8)
                + seq![0u8]);
        }
        z = z + 1;
    }
    let ghost hh = header_bytes(n as u32, tl as u32, ext_off as u32);
    proof {
        assert(out@ =~= hh);
    }

    // Emit the entries.
    let ghost es = build_entries(sortedm, st, base as int);
    let mut j: usize = 0;
    while j < n
        invariant
            0 <= j <= n,
            n == sorted@.len(),
            sortedm == lib_models(sorted@, pfx),
            es == build_entries(sortedm, st, base as int),
            es.len() == n,
            st == intern_all(sortedm),
            table@ == st.table && offs_model(offsets@) == st.offsets,
            base == 48 + 24 * n,
            base <= 0xffff_ffff,
            out@ == hh + entries_bytes(es.take(j as int)),
            ({
                match prefix {
                    Some(p) => pre_bytes matches Some(v) && v@ == encode_utf8(p@),
                    None => pre_bytes is None,
                }
            }),
            pfx == opt_prefix_view(prefix),
        decreases n - j,
    {
        let lib = &sorted[j];
        proof {
            assert(lib_models(sorted@, pfx)[j as int] == lib_model(sorted@[j as int], pfx));
        }
        let nm = lib_name_bytes(lib);
        let rel_k = match find_offset(&offsets, &nm) {
            Some(o) => o,
            None => 0u32,
        };
        let pref = match &pre_bytes {
            Some(v) => Some(v),
            None => None,
        };
        let pt = lib_path_bytes(lib, pref);
        let rel_v = match find_offset(&offsets, &pt) {
            Some(o) => o,
            None => 0u32,
        };
        let key_off = #[verifier::truncate] ((base as u64 + rel_k as u64) as u32);
        let val_off = #[verifier::truncate] ((base as u64 + rel_v as u64) as u32);
        let flags = crate::arch::arch_to_flags(lib.arch, lib.is_64bit, lib.is_hardfloat);
        let hw = match lib.hwcap {
            Some(h) => h,
            None => 0u64,
        };
        proof {
            assert(nm@ == sortedm[j as int].name);
            assert(pt@ == sortedm[j as int].path);
            assert(rel_k as int == find_or_zero(st.offsets, sortedm[j as int].name));
            assert(rel_v as int == find_or_zero(st.offsets, sortedm[j as int].path));
            assert(es[j as int] == entry_for(sortedm[j as int], st, base as int));
            assert(key_off == es[j as int].key_offset);
            assert(val_off == es[j as int].value_offset);
        }
        emit_entry(&mut out, flags, key_off, val_off, lib.osversion, hw);
        proof {
            lemma_entries_bytes_snoc(es.take(j as int), es[j as int]);
            assert(es.take(j + 1) =~= es.take(j as int).push(es[j as int]));
            assert(es[j as int] == CacheEntry {
                flags,
                key_offset: key_off,
                value_offset: val_off,
                osversion: lib.osversion,
                hwcap: hw,
            });
            assert(out@ =~= hh + entries_bytes(es.take(j + 1)));
        }
        j = j + 1;
    }
    proof {
        assert(es.take(n as int) =~= es);
    }
    let ghost ee = entries_bytes(es);

    // Append the string table and alignment padding.
    out.extend_from_slice(table.as_slice());
    let mut k: usize = 0;
    while k < pad
        invariant
            0 <= k <= pad,
            out@ == hh + ee + table@ + Seq::new(k as nat, |t: int| 0u8),
        decreases pad - k,
    {
        out.push(0u8);
        proof {
            assert(Seq::new((k + 1) as nat, |t: int| 0u8) =~= Seq::new(k as nat, |t: int| 0u8)
                + seq![0u8]);
            assert(out@ =~= hh + ee + table@ + Seq::new((k + 1) as nat, |t: int| 0u8));
        }
        k = k + 1;
    }
    let ghost pp = Seq::new(pad as nat, |t: int| 0u8);

    // Append the extension section carrying the generator string.
    push_u32(&mut out, EXTENSION_MAGIC);
    push_u32(&mut out, 1u32);
    push_u32(&mut out, 0u32);
    push_u32(&mut out, 0u32);
    push_u32(&mut out, (ext_off + 24) as u32);
    let gen = "ldconfig-rs 0.1.0";
    let gb = gen.as_bytes();
    proof {
        lemma_gen_bytes_len();
    }
    push_u32(&mut out, gb.len() as u32);
    out.extend_from_slice(gb);
    out.push(0u8);
    proof {
        let xx = ext_bytes(ext_off as int, gen_bytes());
        assert(out@ =~= hh + ee + table@ + pp + xx);
        assert(spec_build(all) =~= hh + ee + st.table + pp + xx);
    }
    out
}

/// String interning: the string-table region of a built image is exactly
/// the concatenation of the interned strings, each stored once with its
/// NUL terminator, and no two interned strings are equal — so a string
/// shared by several descriptors appears in the table exactly once, and
/// every descriptor's file name and path are found there.
pub proof fn lemma_string_table_interned(libs: Seq<LibModel>)
    requires
        build_fits(libs),
        forall|i: int|
            0 <= i < libs.len() ==> nul_free(#[trigger] libs[i].name) && nul_free(libs[i].path),
    ensures
        ({
            let sorted = sort_libs(libs);
            let st = intern_all(sorted);
            let base = 48 + 24 * (sorted.len() as int);
            &&& spec_build(libs).subrange(base, base + st.table.len()) == st.table
            &&& st.table == table_of(st.offsets)
            &&& (forall|k1: int, k2: int|
                0 <= k1 < k2 < st.offsets.len() ==> (#[trigger] st.offsets[k1].0) != (
                #[trigger] st.offsets[k2].0))
            &&& (forall|i: int|
                0 <= i < sorted.len() ==> assoc_find(
                    st.offsets,
                    #[trigger] sorted[i].name,
                ) is Some && assoc_find(st.offsets, sorted[i].path) is Some)
        }),
{
    let sorted = sort_libs(libs);
    lemma_build_layout(libs);
    lemma_sort_libs(libs);
    lemma_sorted_elements(libs);
    assert forall|i: int| 0 <= i < sorted.len() implies nul_free(#[trigger] sorted[i].name)
        && nul_free(sorted[i].path) by {
        let j = choose|j: int| 0 <= j < libs.len() && libs[j] == sorted[i];
        assert(nul_free(libs[j].name));
    }
    lemma_intern_all(sorted);
}

/// The mathematical model of a parsed cache image.
pub ghost struct CacheModel {
    pub magic: Seq<u8>,
    pub nlibs: u32,
    pub len_strings: u32,
    pub entries: Seq<CacheEntry>,
    pub strings: Seq<Seq<u8>>,
    pub generator: Option<Seq<u8>>,
}

/// What parsing recovers from an arbitrary byte image: the header fields,
/// the declared number of 24-byte entries, the string-table segments, and
/// the extension section's generator. Data too short for its header or its
/// declared entries is rejected; everything else parses.
pub open spec fn spec_parse(data: Seq<u8>) -> Result<CacheModel, crate::Error> {
    if data.len() < 48 {
        Err(crate::Error::TruncatedHeader)
    } else {
        let nlibs = u32_at(data, 20);
        let len_strings = u32_at(data, 24);
        if 48 + 24 * (nlibs as int) > data.len() {
            Err(crate::Error::TruncatedEntries)
        } else {
            let st_start = 48 + 24 * (nlibs as int);
            let st_end = if st_start + len_strings <= data.len() {
                st_start + len_strings as int
            } else {
                data.len() as int
            };
            Ok(
                CacheModel {
                    magic: data.subrange(0, 20),
                    nlibs,
                    len_strings,
                    entries: Seq::new(nlibs as nat, |i: int| decode_entry_at(data, 48 + 24 * i)),
                    strings: split_strings(data.subrange(st_start, st_end)),
                    generator: spec_ext_generator(data),
                },
            )
        }
    }
}

/// Relies on `String::from_utf8`: it succeeds exactly on valid UTF-8 and
/// yields its decoding.
#[verifier::external_body]
pub(crate) fn string_from_utf8(bytes: Vec<u8>) -> (r: Option<String>)
    ensures
        r is Some <==> valid_utf8(bytes@),
        r matches Some(s) ==> s@ == decode_utf8(bytes@),
{
    match String::from_utf8(bytes) {
        Ok(s) => Some(s),
        Err(_) => None,
    }
}

/// Relies on `String::from_utf8_lossy`: on valid UTF-8 input the result is
/// exactly its decoding.
#[verifier::external_body]
pub(crate) fn string_from_utf8_lossy(bytes: &Vec<u8>) -> (r: String)
    ensures
        valid_utf8(bytes@) ==> r@ == decode_utf8(bytes@),
{
    String::from_utf8_lossy(bytes.as_slice()).into_owned()
}

/// Read the little-endian 32-bit value at `off`.
fn read_u32(data: &Vec<u8>, off: usize) -> (r: u32)
    requires
        off + 4 <= data@.len(),
    ensures
        r == u32_at(data@, off as int),
{
    let l = data.len();
    proof {
        assert(off + 4 <= l);
    }
    let s = vstd::slice::slice_subrange(data.as_slice(), off, off + 4);
    vstd::bytes::u32_from_le_bytes(s)
}

/// Read the little-endian 64-bit value at `off`.
fn read_u64(data: &Vec<u8>, off: usize) -> (r: u64)
    requires
        off + 8 <= data@.len(),
    ensures
        r == u64_at(data@, off as int),
{
    let l = data.len();
    proof {
        assert(off + 8 <= l);
    }
    let s = vstd::slice::slice_subrange(data.as_slice(), off, off + 8);
    vstd::bytes::u64_from_le_bytes(s)
}

/// The first NUL at or after `p`, seen from the suffix starting at `p`.
proof fn lemma_first_nul_skip(b: Seq<u8>, p: int)
    requires
        0 <= p <= b.len(),
    ensures
        first_nul_from(b.skip(p), 0) == first_nul_from(b, p) - p,
{
    lemma_first_nul_bounds(b, p);
    let j = first_nul_from(b, p);
    let s = b.skip(p);
    if j < b.len() {
        assert(s[j - p] == b[j]);
        assert forall|t: int| 0 <= t < j - p implies s[t] != 0u8 by {
            assert(s[t] == b[t + p]);
        }
        lemma_first_nul_exact(s, 0, j - p);
    } else {
        assert forall|t: int| 0 <= t < s.len() implies s[t] != 0u8 by {
            assert(s[t] == b[t + p]);
        }
        lemma_first_nul_bounds(s, 0);
        if first_nul_from(s, 0) < s.len() {
            assert(s[first_nul_from(s, 0)] == 0u8);
        }
    }
}

/// Split a string table into its non-empty NUL-terminated segments,
/// decoding each; an invalid segment is carried lossily.
fn split_table_strings(b: &Vec<u8>) -> (r: Vec<String>)
    ensures
        r@.len() == split_strings(b@).len(),
        forall|i: int|
            0 <= i < r@.len() && valid_utf8(split_strings(b@)[i]) ==> (#[trigger] r@[i])@
                == decode_utf8(split_strings(b@)[i]),
{
    let mut res: Vec<String> = Vec::new();
    let ghost mut segs: Seq<Seq<u8>> = Seq::empty();
    let mut p: usize = 0;
    proof {
        assert(b@.skip(0) =~= b@);
        assert(segs + split_strings(b@.skip(0)) =~= split_strings(b@));
    }
    while p < b.len()
        invariant
            0 <= p <= b@.len(),
            split_strings(b@) == segs + split_strings(b@.skip(p as int)),
            res@.len() == segs.len(),
            forall|i: int|
                0 <= i < res@.len() && valid_utf8(segs[i]) ==> (#[trigger] res@[i])@ == decode_utf8(
                    segs[i],
                ),
        decreases b@.len() - p,
    {
        let ghost suffix = b@.skip(p as int);
        // Find the next NUL at or after p.
        let mut k: usize = p;
        while k < b.len() && b[k] != 0u8
            invariant
                p <= k <= b@.len(),
                forall|t: int| p <= t < k ==> b@[t] != 0u8,
            decreases b@.len() - k,
        {
            k = k + 1;
        }
        proof {
            if k < b.len() {
                lemma_first_nul_exact(b@, p as int, k as int);
            } else {
                lemma_first_nul_bounds(b@, p as int);
                if first_nul_from(b@, p as int) < b@.len() {
                    assert(b@[first_nul_from(b@, p as int)] == 0u8);
                }
            }
            lemma_first_nul_skip(b@, p as int);
            assert(first_nul_from(suffix, 0) == k - p);
        }
        if k == p {
            // Empty segment: skip the NUL.
            proof {
                assert(suffix.drop_first() =~= b@.skip(p + 1));
            }
            p = p + 1;
        } else if k == b.len() {
            // Unterminated trailing bytes are not counted.
            proof {
                assert(split_strings(suffix) =~= Seq::<Seq<u8>>::empty());
                assert(segs + split_strings(suffix) =~= segs);
                assert(b@.skip(b@.len() as int) =~= Seq::<u8>::empty());
            }
            p = b.len();
        } else {
            let seg = vstd::slice::slice_to_vec(vstd::slice::slice_subrange(b.as_slice(), p, k));
            let s = string_from_utf8_lossy(&seg);
            proof {
                assert(suffix.take(k - p) =~= seg@);
                assert(suffix.skip(k - p + 1) =~= b@.skip(k + 1));
                assert(split_strings(suffix) =~= seq![seg@] + split_strings(b@.skip(k + 1)));
                assert(segs + split_strings(suffix) =~= segs.push(seg@) + split_strings(
                    b@.skip(k + 1),
                ));
            }
            res.push(s);
            proof {
                segs = segs.push(seg@);
            }
            p = k + 1;
        }
    }
    proof {
        assert(b@.skip(p as int) =~= Seq::<u8>::empty());
        assert(segs + split_strings(b@.skip(p as int)) =~= segs);
    }
    res
}

/// Extract the generator string of the extension section, if the image
/// carries one.
fn parse_ext_generator(v: &Vec<u8>) -> (r: Option<String>)
    requires
        v@.len() >= 48,
    ensures
        r is Some <==> spec_ext_generator(v@) is Some,
        match spec_ext_generator(v@) {
            Some(g) => valid_utf8(g) ==> (r matches Some(s) && s@ == decode_utf8(g)),
            None => true,
        },
{
    let ext_off32 = read_u32(v, 32);
    let ext_off = ext_off32 as usize;
    if ext_off == 0 {
        return None;
    }
    if !(ext_off as u64 + 24 <= v.len() as u64) {
        return None;
    }
    if read_u32(v, ext_off) != EXTENSION_MAGIC {
        return None;
    }
    let count = read_u32(v, ext_off + 4);
    let mut i = count;
    loop
        invariant
            0 <= i <= count,
            v@.len() >= 48,
            ext_off == ext_off32 as int,
            ext_off32 == u32_at(v@, 32),
            ext_off > 0,
            ext_off + 24 <= v@.len(),
            u32_at(v@, ext_off as int) == EXTENSION_MAGIC,
            count == u32_at(v@, ext_off + 4),
            spec_ext_generator(v@) == ext_gen_from(v@, ext_off as int, i as int),
        decreases i,
    {
        if i == 0 {
            return None;
        }
        let s_off_u = ext_off as u64 + 8 + (i - 1) as u64 * 16;
        if s_off_u + 16 <= v.len() as u64 {
            let s_off = s_off_u as usize;
            let tag = read_u32(v, s_off);
            let d_off = read_u32(v, s_off + 8);
            let d_size = read_u32(v, s_off + 12);
            if tag == 0 && d_off as u64 + d_size as u64 <= v.len() as u64 {
                let gb = vstd::slice::slice_to_vec(
                    vstd::slice::slice_subrange(
                        v.as_slice(),
                        d_off as usize,
                        (d_off as u64 + d_size as u64) as usize,
                    ),
                );
                let s = string_from_utf8_lossy(&gb);
                proof {
                    assert(gb@ =~= v@.subrange(
                        u32_at(v@, s_off + 8) as int,
                        u32_at(v@, s_off + 8) + u32_at(v@, s_off + 12),
                    ));
                }
                return Some(s);
            }
        }
        i = i - 1;
    }
}

/// Parse a cache image: the header fields, the declared entries, the
/// string-table segments and the extension generator. Data too short for
/// its header or its declared entries is rejected with a structured error;
/// nothing here panics.
pub fn parse_cache_data(data: &[u8]) -> (r: Result<CacheInfo, crate::Error>)
    ensures
        ({
            let m = spec_parse(data@);
            match r {
                Err(e) => m matches Err(e2) && e == e2,
                Ok(info) => m is Ok && {
                    let mm = m->Ok_0;
                    &&& info.header.nlibs == mm.nlibs
                    &&& info.header.len_strings == mm.len_strings
                    &&& (valid_utf8(mm.magic) ==> info.header.magic@ == decode_utf8(mm.magic))
                    &&& info.entries@ == mm.entries
                    &&& info.string_table@.len() == mm.strings.len()
                    &&& (forall|i: int|
                        0 <= i < mm.strings.len() && valid_utf8(#[trigger] mm.strings[i])
                            ==> info.string_table@[i]@ == decode_utf8(mm.strings[i]))
                    &&& (info.generator is Some <==> mm.generator is Some)
                    &&& match mm.generator {
                        Some(g) => valid_utf8(g) ==> (info.generator matches Some(s) && s@
                            == decode_utf8(g)),
                        None => true,
                    }
                },
            }
        }),
{
    let v: Vec<u8> = vstd::slice::slice_to_vec(data);
    if v.len() < 48 {
        return Err(crate::Error::TruncatedHeader);
    }
    let magic_b = vstd::slice::slice_to_vec(vstd::slice::slice_subrange(v.as_slice(), 0, 20));
    let magic = string_from_utf8_lossy(&magic_b);
    proof {
        assert(magic_b@ =~= v@.subrange(0, 20));
    }
    let nlibs = read_u32(&v, 20);
    let len_strings = read_u32(&v, 24);
    let need = 48u64 + 24u64 * (nlibs as u64);
    if need > v.len() as u64 {
        return Err(crate::Error::TruncatedEntries);
    }
    let n = nlibs as usize;
    let vlen = v.len();
    let mut entries: Vec<CacheEntry> = Vec::new();
    let mut i: usize = 0;
    while i < n
        invariant
            0 <= i <= n,
            n == nlibs as int,
            vlen == v@.len(),
            48 + 24 * n <= vlen,
            entries@.len() == i,
            forall|t: int| 0 <= t < i ==> (#[trigger] entries@[t]) == decode_entry_at(v@, 48 + 24 * t),
        decreases n - i,
    {
        let off = 48 + 24 * i;
        let e = CacheEntry {
            flags: read_u32(&v, off),
            key_offset: read_u32(&v, off + 4),
            value_offset: read_u32(&v, off + 8),
            osversion: read_u32(&v, off + 12),
            hwcap: read_u64(&v, off + 16),
        };
        entries.push(e);
        i = i + 1;
    }
    let st_start = 48 + 24 * n;
    let st_end_u = st_start as u64 + len_strings as u64;
    let st_end = if st_end_u <= v.len() as u64 {
        st_end_u as usize
    } else {
        v.len()
    };
    let tbl = vstd::slice::slice_to_vec(vstd::slice::slice_subrange(v.as_slice(), st_start, st_end));
    proof {
        assert(tbl@ =~= v@.subrange(st_start as int, st_end as int));
    }
    let string_table = split_table_strings(&tbl);
    let generator = parse_ext_generator(&v);
    let info = CacheInfo {
        header: CacheHeader { magic, nlibs, len_strings },
        entries,
        string_table,
        generator,
    };
    proof {
        let mm = spec_parse(data@)->Ok_0;
        assert(info.entries@ =~= mm.entries);
    }
    Ok(info)
}

/// Parse a cache image. Same contract as [`parse_cache_data`].
pub fn parse_cache(data: &[u8]) -> (r: Result<CacheInfo, crate::Error>)
    ensures
        ({
            let m = spec_parse(data@);
            match r {
                Err(e) => m matches Err(e2) && e == e2,
                Ok(info) => m is Ok && {
                    let mm = m->Ok_0;
                    &&& info.header.nlibs == mm.nlibs
                    &&& info.header.len_strings == mm.len_strings
                    &&& (valid_utf8(mm.magic) ==> info.header.magic@ == decode_utf8(mm.magic))
                    &&& info.entries@ == mm.entries
                    &&& info.string_table@.len() == mm.strings.len()
                    &&& (forall|i: int|
                        0 <= i < mm.strings.len() && valid_utf8(#[trigger] mm.strings[i])
                            ==> info.string_table@[i]@ == decode_utf8(mm.strings[i]))
                    &&& (info.generator is Some <==> mm.generator is Some)
                    &&& match mm.generator {
                        Some(g) => valid_utf8(g) ==> (info.generator matches Some(s) && s@
                            == decode_utf8(g)),
                        None => true,
                    }
                },
            }
        }),
{
    parse_cache_data(data)
}

} // verus!
