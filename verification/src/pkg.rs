//! Application packages: a `NEXOPKG1` header, a textual manifest (`key=value` lines) that
//! declares what the application is and which permissions it needs, and the application's
//! files, all covered by a CRC-32.
//!
//! Layout (little-endian): `"NEXOPKG1"` (8 B), version `u32` (= 1), manifest length `u32`,
//! file count `u32`, CRC-32 `u32` of the payload; payload = manifest, then per file
//! { name length `u16`, name, data length `u32`, data }.
use vstd::prelude::*;
use vstd::slice::slice_subrange;
use vstd::string::StringSliceAdditionalSpecFns;
use vstd::utf8::{valid_utf8, is_char_boundary, is_continuation_byte};
use crate::bytes::{le16, le32, get_le16, get_le32};
use crate::text::{
    find_byte, find_byte_in, range_eq, trim, trim_range, utf8, lemma_find_byte, lemma_find_byte_window, lemma_next_boundary,
    lemma_boundary_at,
};
pub use crate::crc::crc32;
use crate::crc::crc32_spec;

verus! {

/// Format version.
pub const VERSION: u32 = 1;
/// Length of the fixed header.
pub const HEADER_LEN: usize = 24;
/// Longest application name in the manifest.
pub const MAX_NAME: usize = 32;
/// Longest version text in the manifest.
pub const MAX_VERSION_STR: usize = 16;
/// Longest file or entry name in the package.
pub const MAX_ENTRY: usize = 32;
/// Most files in a package.
pub const MAX_FILES: u32 = 64;

/// Decoding errors.
#[derive(Clone, Copy, Debug, PartialEq, Eq, Structural)]
pub enum PkgError {
    /// Wrong signature.
    BadMagic,
    /// Unknown format version.
    BadVersion,
    /// Too few bytes, or inconsistent lengths.
    Truncated,
    /// The payload's CRC-32 does not match.
    BadCrc,
    /// Invalid manifest (required key missing, value too long, not UTF-8).
    BadManifest,
    /// Limit exceeded (too many files).
    TooBig,
}

/// Signature `NEXOPKG1`.
pub open spec fn magic() -> Seq<u8> {
    seq![78u8, 69u8, 88u8, 79u8, 80u8, 75u8, 71u8, 49u8]
}

pub open spec fn key_name() -> Seq<u8> {
    seq![110u8, 97u8, 109u8, 101u8]
}

pub open spec fn key_version() -> Seq<u8> {
    seq![118u8, 101u8, 114u8, 115u8, 105u8, 111u8, 110u8]
}

pub open spec fn key_entry() -> Seq<u8> {
    seq![101u8, 110u8, 116u8, 114u8, 121u8]
}

pub open spec fn key_perms() -> Seq<u8> {
    seq![112u8, 101u8, 114u8, 109u8, 115u8]
}

/// Manifest fields read so far: name, version, entry and the raw permission list.
pub open spec fn read_line(
    st: (Option<Seq<u8>>, Option<Seq<u8>>, Option<Seq<u8>>, Seq<u8>),
    line: Seq<u8>,
) -> Option<(Option<Seq<u8>>, Option<Seq<u8>>, Option<Seq<u8>>, Seq<u8>)> {
    let t = trim(line);
    if t.len() == 0 || t[0] == 35u8 {
        Some(st)
    } else {
        let q = find_byte(t, 61u8, 0);
        if q >= t.len() {
            None
        } else {
            let k = trim(t.subrange(0, q));
            let v = trim(t.subrange(q + 1, t.len() as int));
            if k == key_name() && 0 < v.len() <= MAX_NAME {
                Some((Some(v), st.1, st.2, st.3))
            } else if k == key_version() && 0 < v.len() <= MAX_VERSION_STR {
                Some((st.0, Some(v), st.2, st.3))
            } else if k == key_entry() && 0 < v.len() <= MAX_ENTRY {
                Some((st.0, st.1, Some(v), st.3))
            } else if k == key_perms() {
                Some((st.0, st.1, st.2, v))
            } else {
                None
            }
        }
    }
}

/// The fields after reading the lines of `s` from `pos` on; `None` on a bad line.
pub open spec fn read_lines(
    s: Seq<u8>,
    pos: int,
    st: (Option<Seq<u8>>, Option<Seq<u8>>, Option<Seq<u8>>, Seq<u8>),
) -> Option<(Option<Seq<u8>>, Option<Seq<u8>>, Option<Seq<u8>>, Seq<u8>)>
    decreases s.len() + 1 - pos,
{
    if pos < 0 || pos > s.len() {
        Some(st)
    } else {
        let e = find_byte(s, 10u8, pos);
        match read_line(st, s.subrange(pos, e)) {
            None => None,
            Some(st2) => if e >= s.len() {
                Some(st2)
            } else {
                proof {
                    lemma_find_byte(s, 10u8, pos);
                }
                read_lines(s, e + 1, st2)
            },
        }
    }
}

/// What the manifest text `s` declares: name, version, entry and raw permission list.
pub open spec fn manifest_spec(s: Seq<u8>) -> Result<(Seq<u8>, Seq<u8>, Seq<u8>, Seq<u8>), PkgError> {
    if !valid_utf8(s) {
        Err(PkgError::BadManifest)
    } else {
        match read_lines(s, 0, (None, None, None, Seq::empty())) {
            Some((Some(n), Some(v), Some(e), p)) => Ok((n, v, e, p)),
            _ => Err(PkgError::BadManifest),
        }
    }
}

/// The permissions in a raw list from `pos` on: comma-separated, trimmed, empty ones left out.
pub open spec fn perm_list(s: Seq<u8>, pos: int) -> Seq<Seq<u8>>
    decreases s.len() + 1 - pos,
{
    if pos < 0 || pos > s.len() {
        Seq::empty()
    } else {
        let e = find_byte(s, 44u8, pos);
        let t = trim(s.subrange(pos, e));
        let rest = if e >= s.len() {
            Seq::<Seq<u8>>::empty()
        } else {
            proof {
                lemma_find_byte(s, 44u8, pos);
            }
            perm_list(s, e + 1)
        };
        if t.len() > 0 {
            seq![t] + rest
        } else {
            rest
        }
    }
}

/// `text[lo..hi]` as a string.
fn substr<'a>(text: &'a str, lo: usize, hi: usize) -> (r: &'a str)
    requires
        lo <= hi <= text.spec_bytes().len(),
        is_char_boundary(text.spec_bytes(), lo as int),
        is_char_boundary(text.spec_bytes(), hi as int),
    ensures
        r.spec_bytes() == text.spec_bytes().subrange(lo as int, hi as int),
{
    proof {
        vstd::utf8::encode_utf8_valid_utf8(text@);
    }
    let (head, _) = text.split_at(hi);
    proof {
        vstd::utf8::encode_utf8_valid_utf8(head@);
        let hb = head.spec_bytes();
        assert(hb == text.spec_bytes().subrange(0, hi as int));
        if lo < hi {
            vstd::utf8::is_char_boundary_iff_not_is_continuation_byte(text.spec_bytes(), lo as int);
            assert(hb[lo as int] == text.spec_bytes()[lo as int]);
        }
        lemma_boundary_at(hb, lo as int);
    }
    let (_, tail) = head.split_at(lo);
    tail
}

/// An application's manifest: what it is and what it declares to need.
#[derive(Clone, Copy, Debug)]
pub struct Manifest<'a> {
    /// Application name.
    pub name: &'a str,
    /// Application version (text).
    pub version: &'a str,
    /// Executable file in the package.
    pub entry: &'a str,
    perms_raw: &'a str,
}

/// The field a range of `b` holds.
pub open spec fn field(b: Seq<u8>, r: Option<(usize, usize)>) -> Option<Seq<u8>> {
    match r {
        Some((x, y)) => Some(b.subrange(x as int, y as int)),
        None => None,
    }
}

/// A range whose ends start characters of `b`.
pub open spec fn on_boundaries(b: Seq<u8>, r: Option<(usize, usize)>) -> bool {
    match r {
        Some((x, y)) => x <= y <= b.len() && is_char_boundary(b, x as int) && is_char_boundary(b, y as int),
        None => true,
    }
}

impl<'a> Manifest<'a> {
    /// The application name.
    pub fn name_str(&self) -> (r: &'a str)
        ensures
            r.spec_bytes() == self.parts().0,
    {
        self.name
    }

    /// Name, version, entry and raw permission list.
    pub closed spec fn parts(&self) -> (Seq<u8>, Seq<u8>, Seq<u8>, Seq<u8>) {
        (self.name.spec_bytes(), self.version.spec_bytes(), self.entry.spec_bytes(), self.perms_raw.spec_bytes())
    }

    /// Reads a manifest (`key=value` per line; `#` comments; any order).
    pub fn parse(bytes: &'a [u8]) -> (r: Result<Manifest<'a>, PkgError>)
        ensures
            match manifest_spec(bytes@) {
                Ok(t) => r matches Ok(m) && m.parts() == t,
                Err(e) => r matches Err(e2) && e2 == e,
            },
    {
        let text = match utf8(bytes) {
            Some(t) => t,
            None => { return Err(PkgError::BadManifest); },
        };
        let ghost s = bytes@;
        let mut name: Option<(usize, usize)> = None;
        let mut version: Option<(usize, usize)> = None;
        let mut entry: Option<(usize, usize)> = None;
        let mut perms: (usize, usize) = (0, 0);
        let mut pos: usize = 0;
        let ghost init = (None::<Seq<u8>>, None::<Seq<u8>>, None::<Seq<u8>>, Seq::<u8>::empty());
        assert(s.subrange(0, s.len() as int) =~= s);
        assert(s.subrange(0, 0) =~= Seq::<u8>::empty());
        proof {
            lemma_boundary_at(s, 0);
        }
        let kn: [u8; 4] = [110u8, 97u8, 109u8, 101u8];
        let kv: [u8; 7] = [118u8, 101u8, 114u8, 115u8, 105u8, 111u8, 110u8];
        let ke: [u8; 5] = [101u8, 110u8, 116u8, 114u8, 121u8];
        let kp: [u8; 5] = [112u8, 101u8, 114u8, 109u8, 115u8];
        loop
            invariant
                init == (None::<Seq<u8>>, None::<Seq<u8>>, None::<Seq<u8>>, Seq::<u8>::empty()),
                s == bytes@,
                valid_utf8(s),
                text.spec_bytes() == s,
                s.subrange(0, s.len() as int) == s,
                kn@ == key_name(),
                kv@ == key_version(),
                ke@ == key_entry(),
                kp@ == key_perms(),
                pos <= s.len(),
                is_char_boundary(s, pos as int),
                on_boundaries(s, name),
                on_boundaries(s, version),
                on_boundaries(s, entry),
                on_boundaries(s, Some(perms)),
                read_lines(s, 0, init) == read_lines(
                    s,
                    pos as int,
                    (field(s, name), field(s, version), field(s, entry), s.subrange(perms.0 as int, perms.1 as int)),
                ),
            ensures
                s == bytes@,
                valid_utf8(s),
                text.spec_bytes() == s,
                on_boundaries(s, name),
                on_boundaries(s, version),
                on_boundaries(s, entry),
                on_boundaries(s, Some(perms)),
                read_lines(s, 0, init) == Some(
                    (field(s, name), field(s, version), field(s, entry), s.subrange(perms.0 as int, perms.1 as int)),
                ),
            decreases s.len() - pos,
        {
            let e = find_byte_in(bytes, 10u8, pos, bytes.len());
            proof {
                lemma_find_byte(s, 10u8, pos as int);
                lemma_boundary_at(s, e as int);
            }
            let ghost st = (field(s, name), field(s, version), field(s, entry), s.subrange(perms.0 as int, perms.1 as int));
            let (a, z) = trim_range(bytes, pos, e);
            let ghost t = s.subrange(a as int, z as int);
            if a < z && bytes[a] != 35u8 {
                let q = find_byte_in(bytes, 61u8, a, z);
                proof {
                    lemma_find_byte_window(s, 61u8, a as int, z as int, a as int);
                    lemma_find_byte(s.subrange(0, z as int), 61u8, a as int);
                }
                if q >= z {
                    assert(t[0] == s[a as int]);
                    assert(read_line(st, s.subrange(pos as int, e as int)) is None);
                    assert(read_lines(s, pos as int, st) is None);
                    return Err(PkgError::BadManifest);
                }
                proof {
                    assert(s.subrange(0, z as int)[q as int] == s[q as int]);
                    lemma_boundary_at(s, q as int);
                    lemma_next_boundary(s, q as int);
                    assert(t.subrange(0, q - a) =~= s.subrange(a as int, q as int));
                    assert(t.subrange(q - a + 1, t.len() as int) =~= s.subrange(q + 1, z as int));
                }
                let (ka, kz) = trim_range(bytes, a, q);
                let (va, vz) = trim_range(bytes, q + 1, z);
                let vlen = vz - va;
                if range_eq(bytes, ka, kz, &kn) && vlen > 0 && vlen <= MAX_NAME {
                    name = Some((va, vz));
                } else if range_eq(bytes, ka, kz, &kv) && vlen > 0 && vlen <= MAX_VERSION_STR {
                    version = Some((va, vz));
                } else if range_eq(bytes, ka, kz, &ke) && vlen > 0 && vlen <= MAX_ENTRY {
                    entry = Some((va, vz));
                } else if range_eq(bytes, ka, kz, &kp) {
                    perms = (va, vz);
                } else {
                    assert(t[0] == s[a as int]);
                    assert(read_line(st, s.subrange(pos as int, e as int)) is None);
                    assert(read_lines(s, pos as int, st) is None);
                    return Err(PkgError::BadManifest);
                }
            }
            assert(read_lines(s, pos as int, st) == match read_line(st, s.subrange(pos as int, e as int)) {
                None => None,
                Some(st2) => if e >= s.len() { Some(st2) } else { read_lines(s, e + 1, st2) },
            });
            if e >= bytes.len() {
                break;
            }
            proof {
                lemma_next_boundary(s, e as int);
            }
            pos = e + 1;
        }
        match (name, version, entry) {
            (Some(n), Some(v), Some(en)) => Ok(
                Manifest {
                    name: substr(text, n.0, n.1),
                    version: substr(text, v.0, v.1),
                    entry: substr(text, en.0, en.1),
                    perms_raw: substr(text, perms.0, perms.1),
                },
            ),
            _ => Err(PkgError::BadManifest),
        }
    }

    /// The declared permissions, one by one.
    pub fn perms(&self) -> (r: Vec<&'a str>)
        ensures
            r@.map_values(|x: &'a str| x.spec_bytes()) == perm_list(self.parts().3, 0),
    {
        let raw = self.perms_raw;
        let b = raw.as_bytes();
        let ghost s = b@;
        proof {
            vstd::utf8::encode_utf8_valid_utf8(raw@);
            lemma_boundary_at(s, 0);
        }
        assert(s.subrange(0, s.len() as int) =~= s);
        let mut out: Vec<&'a str> = Vec::new();
        let mut pos: usize = 0;
        loop
            invariant_except_break
                perm_list(s, 0) == out@.map_values(|x: &'a str| x.spec_bytes()) + perm_list(s, pos as int),
            invariant
                s == b@,
                s == raw.spec_bytes(),
                s == self.parts().3,
                valid_utf8(s),
                s.subrange(0, s.len() as int) == s,
                pos <= s.len(),
                is_char_boundary(s, pos as int),
            ensures
                perm_list(s, 0) == out@.map_values(|x: &'a str| x.spec_bytes()),
            decreases s.len() - pos,
        {
            let e = find_byte_in(b, 44u8, pos, b.len());
            proof {
                lemma_find_byte(s, 44u8, pos as int);
                lemma_boundary_at(s, e as int);
            }
            let ghost before = out@.map_values(|x: &'a str| x.spec_bytes());
            let (a, z) = trim_range(b, pos, e);
            let ghost rest = if e >= s.len() { Seq::<Seq<u8>>::empty() } else { perm_list(s, e + 1) };
            assert(perm_list(s, pos as int) == if s.subrange(a as int, z as int).len() > 0 {
                seq![s.subrange(a as int, z as int)] + rest
            } else {
                rest
            });
            if a < z {
                let p = substr(raw, a, z);
                out.push(p);
                assert(out@.map_values(|x: &'a str| x.spec_bytes()) =~= before.push(s.subrange(a as int, z as int)));
                assert(before + (seq![s.subrange(a as int, z as int)] + rest) =~= before.push(s.subrange(a as int, z as int)) + rest);
            }
            if e >= b.len() {
                assert(before + Seq::<Seq<u8>>::empty() =~= before);
                break;
            }
            proof {
                lemma_next_boundary(s, e as int);
            }
            pos = e + 1;
        }
        out
    }

    /// Whether the application declares the permission `perm`.
    pub fn declares(&self, perm: &str) -> (r: bool)
        ensures
            r == perm_list(self.parts().3, 0).contains(perm.spec_bytes()),
    {
        let list = self.perms();
        let want = perm.as_bytes();
        let ghost l = list@.map_values(|x: &'a str| x.spec_bytes());
        let mut i: usize = 0;
        while i < list.len()
            invariant
                l == list@.map_values(|x: &'a str| x.spec_bytes()),
                l == perm_list(self.parts().3, 0),
                want@ == perm.spec_bytes(),
                i <= list@.len(),
                forall|k: int| 0 <= k < i ==> l[k] != want@,
            decreases list.len() - i,
        {
            if crate::bytes::bytes_eq(list[i].as_bytes(), want) {
                assert(l[i as int] == want@);
                return true;
            }
            i += 1;
        }
        assert(!l.contains(want@));
        false
    }
}

/// The next file record of a file table: name, data and what follows.
pub open spec fn file_record(b: Seq<u8>) -> Result<(Seq<u8>, Seq<u8>, Seq<u8>), PkgError> {
    if b.len() < 2 {
        Err(PkgError::Truncated)
    } else {
        let nl = le16(b, 0);
        if nl == 0 || nl > MAX_ENTRY || b.len() < 2 + nl + 4 {
            Err(PkgError::Truncated)
        } else if !valid_utf8(b.subrange(2, 2 + nl)) {
            Err(PkgError::BadManifest)
        } else {
            let o = 2 + nl;
            let dl = le32(b, o);
            if b.len() < o + 4 + dl {
                Err(PkgError::Truncated)
            } else {
                Ok((b.subrange(2, o), b.subrange(o + 4, o + 4 + dl), b.subrange(o + 4 + dl, b.len() as int)))
            }
        }
    }
}

/// `count` well-formed records make up exactly `b`.
pub open spec fn table_ok(b: Seq<u8>, count: nat) -> bool
    decreases count,
{
    if count == 0 {
        b.len() == 0
    } else {
        match file_record(b) {
            Ok((_, _, rest)) => table_ok(rest, (count - 1) as nat),
            Err(_) => false,
        }
    }
}

/// The first error met reading `count` records from `b` and finding nothing after them.
pub open spec fn table_error(b: Seq<u8>, count: nat) -> PkgError
    decreases count,
{
    if count == 0 {
        PkgError::Truncated
    } else {
        match file_record(b) {
            Ok((_, _, rest)) => table_error(rest, (count - 1) as nat),
            Err(e) => e,
        }
    }
}

/// Data of the first of `left` records in `b` named `name`.
pub open spec fn find_file(b: Seq<u8>, left: nat, name: Seq<u8>) -> Option<Seq<u8>>
    decreases left,
{
    if left == 0 {
        None
    } else {
        match file_record(b) {
            Err(_) => None,
            Ok((n, d, rest)) => if n == name { Some(d) } else { find_file(rest, (left - 1) as nat, name) },
        }
    }
}

/// What `Package::parse` gives: manifest parts, file table and file count.
pub open spec fn package_spec(s: Seq<u8>) -> Result<((Seq<u8>, Seq<u8>, Seq<u8>, Seq<u8>), Seq<u8>, u32), PkgError> {
    if s.len() < HEADER_LEN {
        Err(PkgError::Truncated)
    } else if s.subrange(0, 8) != magic() {
        Err(PkgError::BadMagic)
    } else if le32(s, 8) != VERSION {
        Err(PkgError::BadVersion)
    } else if le32(s, 16) > MAX_FILES {
        Err(PkgError::TooBig)
    } else {
        let payload = s.subrange(HEADER_LEN as int, s.len() as int);
        let ml = le32(s, 12);
        if ml > payload.len() {
            Err(PkgError::Truncated)
        } else if crc32_spec(payload) != le32(s, 20) {
            Err(PkgError::BadCrc)
        } else {
            match manifest_spec(payload.subrange(0, ml)) {
                Err(e) => Err(e),
                Ok(m) => {
                    let files = payload.subrange(ml, payload.len() as int);
                    if table_ok(files, le32(s, 16) as nat) {
                        Ok((m, files, le32(s, 16) as u32))
                    } else {
                        Err(table_error(files, le32(s, 16) as nat))
                    }
                },
            }
        }
    }
}

/// The files of a package, one record at a time.
pub struct FileIter<'a> {
    rest: &'a [u8],
    left: u32,
}

impl<'a> FileIter<'a> {
    /// What is left of the table, and how many records it should still hold.
    pub closed spec fn state(&self) -> (Seq<u8>, u32) {
        (self.rest@, self.left)
    }

    /// The next file (`Ok(None)` at the end; `Err` on a truncated table or a bad name).
    pub fn step(&mut self) -> (r: Result<Option<(&'a str, &'a [u8])>, PkgError>)
        ensures
            old(self).state().1 == 0 ==> r == Ok::<Option<(&'a str, &'a [u8])>, PkgError>(None) && final(self).state() == old(self).state(),
            old(self).state().1 > 0 ==> match file_record(old(self).state().0) {
                Err(e) => r == Err::<Option<(&'a str, &'a [u8])>, PkgError>(e) && final(self).state() == old(self).state(),
                Ok((n, d, rest)) => r matches Ok(Some((ns, ds))) && ns.spec_bytes() == n && ds@ == d
                    && final(self).state() == (rest, (old(self).state().1 - 1) as u32),
            },
    {
        if self.left == 0 {
            return Ok(None);
        }
        let b = self.rest;
        if b.len() < 2 {
            return Err(PkgError::Truncated);
        }
        let name_len = get_le16(b, 0) as usize;
        if name_len == 0 || name_len > MAX_ENTRY || b.len() < 2 + name_len + 4 {
            return Err(PkgError::Truncated);
        }
        let name = match utf8(slice_subrange(b, 2, 2 + name_len)) {
            Some(n) => n,
            None => { return Err(PkgError::BadManifest); },
        };
        let o = 2 + name_len;
        let data_len = get_le32(b, o) as usize;
        if b.len() - (o + 4) < data_len {
            return Err(PkgError::Truncated);
        }
        let data = slice_subrange(b, o + 4, o + 4 + data_len);
        self.rest = slice_subrange(b, o + 4 + data_len, b.len());
        self.left = self.left - 1;
        Ok(Some((name, data)))
    }
}

/// A validated package (signature, version, CRC and limits checked by `parse`).
#[derive(Clone, Copy, Debug)]
pub struct Package<'a> {
    manifest: Manifest<'a>,
    manifest_raw: &'a [u8],
    files: &'a [u8],
    file_count: u32,
}

impl<'a> Package<'a> {
    /// Manifest parts, file table and file count.
    pub closed spec fn view_parts(&self) -> ((Seq<u8>, Seq<u8>, Seq<u8>, Seq<u8>), Seq<u8>, u32) {
        (self.manifest.parts(), self.files@, self.file_count)
    }

    /// The manifest's text as the package holds it.
    pub closed spec fn manifest_text(&self) -> Seq<u8> {
        self.manifest_raw@
    }

    /// Checks and opens a package.
    pub fn parse(bytes: &'a [u8]) -> (r: Result<Package<'a>, PkgError>)
        ensures
            match package_spec(bytes@) {
                Ok(t) => r matches Ok(p) && p.view_parts() == t,
                Err(e) => r matches Err(e2) && e2 == e,
            },
            r matches Ok(p) ==> p.manifest_text() == bytes@.subrange(HEADER_LEN as int, HEADER_LEN + le32(bytes@, 12)),
    {
        if bytes.len() < HEADER_LEN {
            return Err(PkgError::Truncated);
        }
        let m: [u8; 8] = [78u8, 69u8, 88u8, 79u8, 80u8, 75u8, 71u8, 49u8];
        if !crate::bytes::bytes_eq(slice_subrange(bytes, 0, 8), &m) {
            return Err(PkgError::BadMagic);
        }
        if get_le32(bytes, 8) != VERSION {
            return Err(PkgError::BadVersion);
        }
        let manifest_len = get_le32(bytes, 12) as usize;
        let file_count = get_le32(bytes, 16);
        let crc = get_le32(bytes, 20);
        if file_count > MAX_FILES {
            return Err(PkgError::TooBig);
        }
        let payload = slice_subrange(bytes, HEADER_LEN, bytes.len());
        if manifest_len > payload.len() {
            return Err(PkgError::Truncated);
        }
        if crc32(payload) != crc {
            return Err(PkgError::BadCrc);
        }
        let manifest_raw = slice_subrange(payload, 0, manifest_len);
        let manifest = match Manifest::parse(manifest_raw) {
            Ok(m) => m,
            Err(e) => { return Err(e); },
        };
        let files = slice_subrange(payload, manifest_len, payload.len());
        assert(package_spec(bytes@) == if table_ok(files@, file_count as nat) {
            Ok((manifest.parts(), files@, file_count))
        } else {
            Err(table_error(files@, file_count as nat))
        });
        let mut it = FileIter { rest: files, left: file_count };
        let mut k: u32 = 0;
        while k < file_count
            invariant
                package_spec(bytes@) == if table_ok(files@, file_count as nat) {
                    Ok((manifest.parts(), files@, file_count))
                } else {
                    Err(table_error(files@, file_count as nat))
                },
                k <= file_count,
                it.left == file_count - k,
                table_ok(files@, file_count as nat) == table_ok(it.rest@, it.left as nat),
                table_error(files@, file_count as nat) == table_error(it.rest@, it.left as nat),
            decreases file_count - k,
        {
            match it.step() {
                Ok(_) => {},
                Err(e) => { return Err(e); },
            }
            k += 1;
        }
        if it.rest.len() != 0 {
            return Err(PkgError::Truncated);
        }
        assert(manifest_raw@ =~= bytes@.subrange(HEADER_LEN as int, HEADER_LEN + le32(bytes@, 12)));
        Ok(Package { manifest, manifest_raw, files, file_count })
    }

    /// The manifest.
    pub fn manifest(&self) -> (r: Manifest<'a>)
        ensures
            r.parts() == self.view_parts().0,
    {
        self.manifest
    }

    /// The manifest's text.
    pub fn manifest_bytes(&self) -> (r: &'a [u8])
        ensures
            r@ == self.manifest_text(),
    {
        self.manifest_raw
    }

    /// How many files the package holds.
    pub fn file_count(&self) -> (r: u32)
        ensures
            r == self.view_parts().2,
    {
        self.file_count
    }

    /// The files, one record at a time.
    pub fn files(&self) -> (r: FileIter<'a>)
        ensures
            r.state() == (self.view_parts().1, self.view_parts().2),
    {
        FileIter { rest: self.files, left: self.file_count }
    }

    /// Data of the file `name`, if there is one.
    pub fn file(&self, name: &str) -> (r: Option<&'a [u8]>)
        ensures
            match find_file(self.view_parts().1, self.view_parts().2 as nat, name.spec_bytes()) {
                Some(d) => r matches Some(x) && x@ == d,
                None => r is None,
            },
    {
        let mut it = self.files();
        let want = name.as_bytes();
        loop
            invariant
                want@ == name.spec_bytes(),
                find_file(self.view_parts().1, self.view_parts().2 as nat, want@) == find_file(it.state().0, it.state().1 as nat, want@),
            decreases it.state().1,
        {
            match it.step() {
                Ok(Some((n, d))) => {
                    if crate::bytes::bytes_eq(n.as_bytes(), want) {
                        return Some(d);
                    }
                },
                _ => {
                    return None;
                },
            }
        }
    }
}

} // verus!
