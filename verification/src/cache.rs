//! The cache query facade: hold a cache image, parse it, iterate its
//! entries with their strings resolved, search them, and hand the raw
//! bytes back for writing.

use vstd::prelude::*;
use vstd::utf8::{decode_utf8, valid_utf8};
use crate::arch::{decode_arch_flags, spec_decode_arch_flags};
use crate::codec;
use crate::codec::{first_nul_from, lemma_first_nul_bounds, lemma_first_nul_exact, string_at};
use crate::pathname::{contains_chars, contains_str};
use vstd::string::StringExecFns;

verus! {

/// Cache metadata reported to callers.
#[derive(Debug, Clone)]
pub struct CacheInfo {
    pub num_entries: usize,
    pub generator: Option<String>,
}

/// One cache entry with its strings resolved and its architecture
/// decoded.
#[derive(Debug, Clone)]
pub struct CacheEntry {
    pub soname: String,
    pub path: String,
    pub arch: String,
    pub hwcap: u64,
    pub flags: u32,
}

impl CacheEntry {
    /// A field-for-field copy whose value Verus can track.
    pub fn duplicate(&self) -> (r: CacheEntry)
        ensures
            r == *self,
    {
        CacheEntry {
            soname: self.soname.clone(),
            path: self.path.clone(),
            arch: self.arch.clone(),
            hwcap: self.hwcap,
            flags: self.flags,
        }
    }
}

/// The model of a resolved entry.
pub ghost struct EntryModel {
    pub soname: Seq<char>,
    pub path: Seq<char>,
    pub arch: Seq<char>,
    pub hwcap: u64,
    pub flags: u32,
}

/// A cache image, either freshly built (bytes only) or parsed.
pub struct Cache {
    data: Vec<u8>,
    info: Option<codec::CacheInfo>,
}

/// Whether both strings of a wire entry can be resolved from the image:
/// offsets in bounds and the bytes there valid text.
pub open spec fn entry_resolves(data: Seq<u8>, e: codec::CacheEntry) -> bool {
    &&& e.key_offset < data.len()
    &&& valid_utf8(string_at(data, e.key_offset as int))
    &&& e.value_offset < data.len()
    &&& valid_utf8(string_at(data, e.value_offset as int))
}

/// The resolved form of a wire entry.
pub open spec fn resolve_entry(data: Seq<u8>, e: codec::CacheEntry) -> EntryModel {
    EntryModel {
        soname: decode_utf8(string_at(data, e.key_offset as int)),
        path: decode_utf8(string_at(data, e.value_offset as int)),
        arch: spec_decode_arch_flags(e.flags),
        hwcap: e.hwcap,
        flags: e.flags,
    }
}

/// The wire entries whose strings all resolve, each resolved, in file
/// order. An entry that does not resolve is passed over, never an error:
/// one bad entry hides nothing else.
pub open spec fn resolved_entries(data: Seq<u8>, es: Seq<codec::CacheEntry>) -> Seq<EntryModel>
    decreases es.len(),
{
    if es.len() == 0 {
        Seq::empty()
    } else {
        let d = resolved_entries(data, es.drop_last());
        if entry_resolves(data, es.last()) {
            d.push(resolve_entry(data, es.last()))
        } else {
            d
        }
    }
}

/// The models of a resolved entry list.
pub open spec fn entries_model(v: Seq<CacheEntry>) -> Seq<EntryModel> {
    v.map_values(
        |e: CacheEntry| EntryModel {
            soname: e.soname@,
            path: e.path@,
            arch: e.arch@,
            hwcap: e.hwcap,
            flags: e.flags,
        },
    )
}

/// The resolved entries whose lookup key contains `name`.
pub open spec fn spec_find(es: Seq<EntryModel>, name: Seq<char>) -> Seq<EntryModel>
    decreases es.len(),
{
    if es.len() == 0 {
        Seq::empty()
    } else {
        let prev = spec_find(es.drop_last(), name);
        if contains_chars(es.last().soname, name) {
            prev.push(es.last())
        } else {
            prev
        }
    }
}

/// One rendered entry line: its key, its architecture label, its bitmask
/// when nonzero, and its path.
pub open spec fn spec_render_entry(e: EntryModel) -> Seq<char> {
    "\t"@ + e.soname + " ("@ + e.arch + ")"@ + (if e.hwcap != 0 {
        ", hwcap: 0x"@ + crate::render::spec_hex16_chars(e.hwcap)
    } else {
        Seq::empty()
    }) + " => "@ + e.path + "\n"@
}

/// The rendered entry lines, in order.
pub open spec fn spec_render_entries(es: Seq<EntryModel>) -> Seq<char>
    decreases es.len(),
{
    if es.len() == 0 {
        Seq::empty()
    } else {
        spec_render_entries(es.drop_last()) + spec_render_entry(es.last())
    }
}

/// The whole listing: the count header, the entry lines, and the
/// generator line when one is recorded.
pub open spec fn spec_render_cache(
    parsed: bool,
    n: int,
    es: Seq<EntryModel>,
    gen: Option<Seq<char>>,
) -> Seq<char> {
    if !parsed {
        "Cache not parsed (binary only)\n"@
    } else {
        crate::render::spec_dec_chars(n) + " libs found in cache\n"@ + spec_render_entries(es)
            + (match gen {
            Some(g) => "Cache generated by: "@ + g + "\n"@,
            None => Seq::empty(),
        })
    }
}

impl Cache {
    /// The bytes of the image.
    pub closed spec fn bytes(&self) -> Seq<u8> {
        self.data@
    }

    /// Whether the image was parsed rather than only built.
    pub closed spec fn parsed(&self) -> bool {
        self.info is Some
    }

    /// The wire entries of a parsed image.
    pub closed spec fn wire_entries(&self) -> Seq<codec::CacheEntry> {
        self.info->0.entries@
    }

    /// The generator string of a parsed image, if any.
    pub closed spec fn generator_model(&self) -> Option<Seq<char>> {
        match self.info->0.generator {
            Some(g) => Some(g@),
            None => None,
        }
    }

    /// Wrap freshly built cache bytes, for writing.
    pub fn from_bytes_raw(data: Vec<u8>) -> (r: Cache)
        ensures
            r.bytes() == data@,
            !r.parsed(),
    {
        Cache { data, info: None }
    }

    /// Parse a cache image and keep both the bytes and what they decode
    /// to. Fails exactly when the image is too short for its header or
    /// its declared entries.
    pub fn from_bytes(data: &[u8]) -> (r: Result<Cache, crate::Error>)
        ensures
            ({
                let m = codec::spec_parse(data@);
                match r {
                    Err(e) => m matches Err(e2) && e == e2,
                    Ok(c) => m is Ok && c.bytes() == data@ && c.parsed() && c.wire_entries()
                        == m->Ok_0.entries && (c.generator_model() is Some <==> m->Ok_0.generator
                        is Some) && match m->Ok_0.generator {
                        Some(g) => valid_utf8(g) ==> c.generator_model() == Some(decode_utf8(g)),
                        None => c.generator_model() is None,
                    },
                }
            }),
    {
        let info = codec::parse_cache(data)?;
        Ok(Cache { data: vstd::slice::slice_to_vec(data), info: Some(info) })
    }

    /// Metadata: how many entries the image declares, and the generator
    /// recorded in its extension section.
    pub fn info(&self) -> (r: CacheInfo)
        ensures
            self.parsed() ==> r.num_entries == self.wire_entries().len(),
            !self.parsed() ==> r.num_entries == 0,
            self.parsed() ==> (r.generator is Some <==> self.generator_model() is Some),
            !self.parsed() ==> r.generator is None,
            ({
                match r.generator {
                    Some(g) => self.generator_model() == Some(g@),
                    None => true,
                }
            }),
    {
        match &self.info {
            Some(info) => CacheInfo {
                num_entries: info.entries.len(),
                generator: match &info.generator {
                    Some(g) => Some(g.clone()),
                    None => None,
                },
            },
            None => CacheInfo { num_entries: 0, generator: None },
        }
    }

    /// Extract the NUL-terminated string at an absolute byte offset of
    /// the image. Fails exactly on an out-of-range offset or bytes that
    /// are not valid text.
    pub fn extract_string(&self, offset: u32) -> (r: Result<String, crate::Error>)
        ensures
            ({
                let d = self.bytes();
                match r {
                    Ok(s) => offset < d.len() && valid_utf8(string_at(d, offset as int)) && s@
                        == decode_utf8(string_at(d, offset as int)),
                    Err(e) => (offset >= d.len() && e == crate::Error::InvalidCacheOffset(offset))
                        || (offset < d.len() && !valid_utf8(string_at(d, offset as int)) && e
                        == crate::Error::InvalidCacheUtf8),
                }
            }),
    {
        let len = self.data.len();
        if offset as usize >= len {
            return Err(crate::Error::InvalidCacheOffset(offset));
        }
        let start = offset as usize;
        let mut k: usize = start;
        while k < len && self.data[k] != 0u8
            invariant
                start <= k <= len,
                len == self.data@.len(),
                forall|t: int| start <= t < k ==> self.data@[t] != 0u8,
            decreases len - k,
        {
            k = k + 1;
        }
        proof {
            if k < len {
                lemma_first_nul_exact(self.data@, start as int, k as int);
            } else {
                lemma_first_nul_bounds(self.data@, start as int);
                if first_nul_from(self.data@, start as int) < len {
                    assert(self.data@[first_nul_from(self.data@, start as int)] == 0u8);
                }
            }
        }
        let seg = vstd::slice::slice_to_vec(
            vstd::slice::slice_subrange(self.data.as_slice(), start, k),
        );
        proof {
            assert(seg@ =~= string_at(self.data@, offset as int));
        }
        match codec::string_from_utf8(seg) {
            Some(s) => Ok(s),
            None => Err(crate::Error::InvalidCacheUtf8),
        }
    }

    /// The entries of a parsed image with their strings resolved, in file
    /// order. An entry whose strings do not resolve is passed over; the
    /// remaining entries are still listed. An unparsed image yields none.
    pub fn entries(&self) -> (r: Vec<CacheEntry>)
        ensures
            self.parsed() ==> entries_model(r@) == resolved_entries(
                self.bytes(),
                self.wire_entries(),
            ),
            !self.parsed() ==> r@.len() == 0,
    {
        let mut out: Vec<CacheEntry> = Vec::new();
        let es = match &self.info {
            Some(info) => &info.entries,
            None => {
                return out;
            },
        };
        let ghost wire = self.wire_entries();
        let mut i: usize = 0;
        while i < es.len()
            invariant
                0 <= i <= es@.len(),
                es@ == wire,
                self.parsed(),
                wire == self.wire_entries(),
                entries_model(out@) == resolved_entries(self.bytes(), wire.take(i as int)),
            decreases es@.len() - i,
        {
            let e = es[i];
            let resolved = match self.extract_string(e.key_offset) {
                Ok(soname) => match self.extract_string(e.value_offset) {
                    Ok(path) => Some((soname, path)),
                    Err(_) => None,
                },
                Err(_) => None,
            };
            proof {
                assert(wire.take(i + 1).drop_last() =~= wire.take(i as int));
                assert(wire.take(i + 1).last() == wire[i as int]);
            }
            match resolved {
                Some((soname, path)) => {
                    let arch = decode_arch_flags(e.flags);
                    let ghost before = entries_model(out@);
                    out.push(
                        CacheEntry {
                            soname,
                            path,
                            arch: String::from_str(arch),
                            hwcap: e.hwcap,
                            flags: e.flags,
                        },
                    );
                    proof {
                        assert(entry_resolves(self.bytes(), wire[i as int]));
                        assert(entries_model(out@) =~= before.push(resolve_entry(
                            self.bytes(),
                            wire[i as int],
                        )));
                    }
                },
                None => {
                    proof {
                        assert(!entry_resolves(self.bytes(), wire[i as int]));
                    }
                },
            }
            i = i + 1;
        }
        proof {
            assert(wire.take(wire.len() as int) =~= wire);
        }
        out
    }

    /// The resolved entries whose lookup key contains `name`.
    pub fn find(&self, name: &str) -> (r: Vec<CacheEntry>)
        ensures
            self.parsed() ==> entries_model(r@) == spec_find(
                resolved_entries(self.bytes(), self.wire_entries()),
                name@,
            ),
            !self.parsed() ==> r@.len() == 0,
    {
        let all = self.entries();
        let ghost am = entries_model(all@);
        let mut out: Vec<CacheEntry> = Vec::new();
        let mut i: usize = 0;
        while i < all.len()
            invariant
                0 <= i <= all@.len(),
                am == entries_model(all@),
                entries_model(out@) == spec_find(am.take(i as int), name@),
            decreases all@.len() - i,
        {
            let ghost before = entries_model(out@);
            if contains_str(all[i].soname.as_str(), name) {
                out.push(all[i].duplicate());
                proof {
                    assert(entries_model(out@) =~= before.push(am[i as int]));
                }
            }
            proof {
                assert(am.take(i + 1).drop_last() =~= am.take(i as int));
                assert(am.take(i + 1).last() == am[i as int]);
            }
            i = i + 1;
        }
        proof {
            assert(am.take(all@.len() as int) =~= am);
            if !self.parsed() {
                assert(entries_model(out@).len() == 0);
            }
        }
        out
    }

    /// Render the parsed image as the conventional multi-line listing:
    /// a count header, one line per resolved entry, and a trailing
    /// generator line when the extension section carries one.
    pub fn render(&self) -> (r: String)
        ensures
            r@ == spec_render_cache(
                self.parsed(),
                self.wire_entries().len() as int,
                resolved_entries(self.bytes(), self.wire_entries()),
                self.generator_model(),
            ),
    {
        let mut s = String::new();
        if !self.is_parsed() {
            s.append("Cache not parsed (binary only)\n");
            return s;
        }
        let info = self.info();
        let count = crate::render::dec_string(info.num_entries);
        s.append(count.as_str());
        s.append(" libs found in cache\n");
        let ghost header = s@;
        let entries = self.entries();
        let ghost models = entries_model(entries@);
        let mut i: usize = 0;
        while i < entries.len()
            invariant
                0 <= i <= entries@.len(),
                models == entries_model(entries@),
                s@ == header + spec_render_entries(models.take(i as int)),
            decreases entries@.len() - i,
        {
            let ghost before = s@;
            let e = &entries[i];
            s.append("\t");
            s.append(e.soname.as_str());
            s.append(" (");
            s.append(e.arch.as_str());
            s.append(")");
            if e.hwcap != 0 {
                s.append(", hwcap: 0x");
                let h = crate::render::hex16_string(e.hwcap);
                s.append(h.as_str());
            }
            s.append(" => ");
            s.append(e.path.as_str());
            s.append("\n");
            proof {
                assert(s@ =~= before + spec_render_entry(models[i as int]));
                assert(models.take(i + 1).drop_last() =~= models.take(i as int));
                assert(models.take(i + 1).last() == models[i as int]);
                assert(s@ =~= header + spec_render_entries(models.take(i + 1)));
            }
            i = i + 1;
        }
        proof {
            assert(models.take(entries@.len() as int) =~= models);
        }
        let gen = self.info().generator;
        match gen {
            Some(g) => {
                s.append("Cache generated by: ");
                s.append(g.as_str());
                s.append("\n");
            },
            None => {},
        }
        s
    }

    /// Whether the image was parsed rather than only built.
    pub fn is_parsed(&self) -> (r: bool)
        ensures
            r == self.parsed(),
    {
        match &self.info {
            Some(_) => true,
            None => false,
        }
    }

    /// The raw bytes of the image.
    pub fn as_bytes(&self) -> (r: &Vec<u8>)
        ensures
            r@ == self.bytes(),
    {
        &self.data
    }

    /// The byte size of the image.
    pub fn size(&self) -> (r: usize)
        ensures
            r == self.bytes().len(),
    {
        self.data.len()
    }
}

} // verus!
