//! Transactional installation of packages: every file goes into a versioned directory
//! (`/apps/<name>.v<N>/`) and only then the pointer `/apps/<name>.cur` is written with
//! `v<N>`; writing the pointer is the commit.
use vstd::prelude::*;
use vstd::string::StringSliceAdditionalSpecFns;
use vstd::utf8::{valid_utf8, valid_utf8_concat, encode_utf8_valid_utf8};
use crate::pkg::{Package, PkgError, package_spec, file_record, table_ok, HEADER_LEN};
use crate::prefs::{decimal, digits_value, all_digits, put_decimal, decimal_len};
use crate::text::{trim, trim_range, utf8};
use crate::bytes::le32;

verus! {

/// A file-system error (opaque to the library).
#[derive(Clone, Copy, Debug, PartialEq, Eq, Structural)]
pub struct FsErr;

/// The operations an installation needs. Writes are all or nothing: the file system commits
/// each one whole, or leaves the files as they were.
pub trait AppFs {
    /// The files, by path. An implementation states its own; the default describes an empty
    /// file system.
    open spec fn files(&self) -> Map<Seq<u8>, Seq<u8>> {
        Map::empty()
    }

    /// Creates the directory (idempotent: Ok when it exists). Files are left as they are.
    fn mkdir(&mut self, path: &str) -> (r: Result<(), FsErr>)
        ensures
            final(self).files() == old(self).files(),
    ;

    /// Creates (or truncates) `path` and writes all of `data`.
    fn write_file(&mut self, path: &str, data: &[u8]) -> (r: Result<(), FsErr>)
        ensures
            r is Ok ==> final(self).files() == old(self).files().insert(path.spec_bytes(), data@),
            r is Err ==> final(self).files() == old(self).files(),
    ;

    /// Reads all of `path` into `buf`; returns its length (an error when it does not exist or
    /// does not fit).
    fn read_file(&mut self, path: &str, buf: &mut [u8]) -> (r: Result<usize, FsErr>)
        ensures
            final(self).files() == old(self).files(),
            final(buf)@.len() == old(buf)@.len(),
            r matches Ok(n) ==> n <= old(buf)@.len() && old(self).files().contains_key(path.spec_bytes())
                && final(buf)@.subrange(0, n as int) == old(self).files()[path.spec_bytes()],
    ;
}

/// Installation errors.
#[derive(Clone, Copy, Debug, PartialEq, Eq)]
pub enum InstError {
    /// Invalid package (nothing on disk is touched).
    Pkg(PkgError),
    /// File-system failure (the current version does not change).
    Fs,
    /// A path built grew past [`MAX_PATH`].
    PathTooLong,
}

/// Longest path built.
pub const MAX_PATH: usize = 96;

/// `/apps`, where installations live.
pub open spec fn apps_dir() -> Seq<u8> {
    seq![47u8, 97, 112, 112, 115]
}

/// `v<N>`: how a version is written.
pub open spec fn ver_text(v: u32) -> Seq<u8> {
    seq![118u8] + decimal(v as nat)
}

/// The pointer to the current version of `name`: `/apps/<name>.cur`.
pub open spec fn cur_path(name: Seq<u8>) -> Seq<u8> {
    apps_dir() + seq![47u8] + name + seq![46u8, 99, 117, 114]
}

/// The path of `file` in version `v` of `name` (the directory itself for an empty `file`):
/// `/apps/<name>.v<v>[/<file>]`.
pub open spec fn versioned(name: Seq<u8>, v: u32, file: Seq<u8>) -> Seq<u8> {
    let dir = apps_dir() + seq![47u8] + name + seq![46u8] + ver_text(v);
    if file.len() == 0 { dir } else { dir + seq![47u8] + file }
}

/// A version written as `v<N>` with optional white space around the number; `None` for
/// anything else.
pub open spec fn version_spec(b: Seq<u8>) -> Option<u32> {
    if !valid_utf8(b) || b.len() == 0 || b[0] != 118u8 {
        None
    } else {
        parse_u32_spec(trim(b.subrange(1, b.len() as int)))
    }
}

/// What `str::parse::<u32>` gives: an optional `+` and then one or more decimal digits
/// whose value fits.
pub open spec fn parse_u32_spec(s: Seq<u8>) -> Option<u32> {
    let d = if s.len() > 0 && s[0] == 43u8 { s.subrange(1, s.len() as int) } else { s };
    if d.len() == 0 || !all_digits(d) || digits_value(d) > u32::MAX {
        None
    } else {
        Some(digits_value(d) as u32)
    }
}

/// Whether path `k` lies in version `v` of `name`: the version's directory or below it.
pub open spec fn in_version(name: Seq<u8>, v: u32, k: Seq<u8>) -> bool {
    let dir = versioned(name, v, Seq::empty());
    k == dir || (k.len() > dir.len() && k.subrange(0, dir.len() as int + 1) == dir + seq![47u8])
}

/// `after` holds what `before` held at every path outside version `v` of `name` (and
/// outside its pointer, when `pointer` says so).
pub open spec fn kept_outside(before: Map<Seq<u8>, Seq<u8>>, after: Map<Seq<u8>, Seq<u8>>, name: Seq<u8>, v: u32, pointer: bool) -> bool {
    forall|k: Seq<u8>| #![trigger after.contains_key(k)] #![trigger before.contains_key(k)]
        !in_version(name, v, k) && !(pointer && k == cur_path(name)) ==> (after.contains_key(k) == before.contains_key(k) && (
        before.contains_key(k) ==> after[k] == before[k]))
}

/// A path being built, at most [`MAX_PATH`] bytes.
struct PathBuf {
    buf: [u8; MAX_PATH],
    len: usize,
}

impl PathBuf {
    closed spec fn bytes(&self) -> Seq<u8> {
        self.buf@.subrange(0, self.len as int)
    }

    closed spec fn wf(&self) -> bool {
        self.len <= MAX_PATH
    }

    fn new() -> (r: PathBuf)
        ensures
            r.wf(),
            r.bytes() == Seq::<u8>::empty(),
    {
        let r = PathBuf { buf: [0u8; MAX_PATH], len: 0 };
        assert(r.bytes() =~= Seq::<u8>::empty());
        r
    }

    /// Appends `b`, or fails when the path would grow past [`MAX_PATH`].
    fn push(&mut self, b: &[u8]) -> (r: Result<(), InstError>)
        requires
            old(self).wf(),
        ensures
            final(self).wf(),
            old(self).bytes().len() + b@.len() <= MAX_PATH ==> r is Ok && final(self).bytes() == old(self).bytes() + b@,
            old(self).bytes().len() + b@.len() > MAX_PATH ==> r == Err::<(), InstError>(InstError::PathTooLong),
    {
        if b.len() > MAX_PATH - self.len {
            return Err(InstError::PathTooLong);
        }
        let ghost before = self.buf@;
        let mut i: usize = 0;
        while i < b.len()
            invariant
                self.len + b@.len() <= MAX_PATH,
                self.len == old(self).len,
                i <= b@.len(),
                forall|k: int| 0 <= k < self.len ==> #[trigger] self.buf@[k] == before[k],
                forall|k: int| 0 <= k < i ==> #[trigger] self.buf@[self.len + k] == b@[k],
            decreases b.len() - i,
        {
            let at = self.len + i;
            self.buf[at] = b[i];
            i += 1;
        }
        let ghost l0 = self.len;
        self.len = self.len + b.len();
        assert forall|k: int| 0 <= k < self.len implies #[trigger] self.bytes()[k] == (old(self).bytes() + b@)[k] by {
            if k >= l0 {
                assert(self.buf@[l0 + (k - l0)] == b@[k - l0]);
            }
        }
        assert(self.bytes() =~= old(self).bytes() + b@);
        Ok(())
    }

    /// Appends `v<N>`.
    fn push_version(&mut self, v: u32) -> (r: Result<(), InstError>)
        requires
            old(self).wf(),
        ensures
            final(self).wf(),
            old(self).bytes().len() + ver_text(v).len() <= MAX_PATH ==> r is Ok && final(self).bytes() == old(self).bytes() + ver_text(v),
            old(self).bytes().len() + ver_text(v).len() > MAX_PATH ==> r == Err::<(), InstError>(InstError::PathTooLong),
    {
        let mut t = [0u8; 11];
        t[0] = 118u8;
        let n = decimal_len(v);
        let end = put_decimal(&mut t, 1, v);
        let ghost tb = t@;
        assert(t@.subrange(0, end as int) =~= ver_text(v)) by {
            assert(tb == crate::bytes::splice(seq![118u8] + t@.subrange(1, 11), 1, decimal(v as nat)));
        }
        self.push(vstd::slice::slice_subrange(t.as_slice(), 0, end))
    }
}

/// The path bytes of `/apps/<name>.cur`, built in `p`.
fn build_cur(p: &mut PathBuf, name: &[u8]) -> (r: Result<(), InstError>)
    requires
        old(p).wf(),
        old(p).bytes() == Seq::<u8>::empty(),
    ensures
        final(p).wf(),
        cur_path(name@).len() <= MAX_PATH ==> r is Ok && final(p).bytes() == cur_path(name@),
        cur_path(name@).len() > MAX_PATH ==> r == Err::<(), InstError>(InstError::PathTooLong),
{
    let apps = [47u8, 97, 112, 112, 115];
    let slash = [47u8];
    let cur = [46u8, 99, 117, 114];
    assert(apps@ =~= apps_dir());
    p.push(apps.as_slice())?;
    p.push(slash.as_slice())?;
    p.push(name)?;
    p.push(cur.as_slice())?;
    assert(p.bytes() =~= cur_path(name@));
    Ok(())
}

/// `b` read as a version (`v<N>`).
pub fn version_of(b: &[u8]) -> (r: Option<u32>)
    ensures
        r == version_spec(b@),
{
    if utf8(b).is_none() {
        return None;
    }
    if b.len() == 0 || b[0] != 118u8 {
        return None;
    }
    let (lo, hi) = trim_range(b, 1, b.len());
    parse_u32_in(b, lo, hi)
}

/// `b[lo..hi]` read the way `str::parse::<u32>` reads it.
fn parse_u32_in(b: &[u8], lo: usize, hi: usize) -> (r: Option<u32>)
    requires
        lo <= hi <= b.len(),
    ensures
        r == parse_u32_spec(b@.subrange(lo as int, hi as int)),
{
    let ghost s = b@.subrange(lo as int, hi as int);
    let start = if lo < hi && b[lo] == 43u8 { lo + 1 } else { lo };
    assert(b@.subrange(start as int, hi as int) == if s.len() > 0 && s[0] == 43u8 { s.subrange(1, s.len() as int) } else { s });
    if start == hi {
        return None;
    }
    let ghost d = b@.subrange(start as int, hi as int);
    let mut v: u64 = 0;
    let mut i = start;
    while i < hi
        invariant
            start <= i <= hi <= b.len(),
            d == b@.subrange(start as int, hi as int),
            parse_u32_spec(b@.subrange(lo as int, hi as int)) == (if d.len() == 0 || !all_digits(d) || digits_value(d) > u32::MAX {
                None
            } else {
                Some(digits_value(d) as u32)
            }),
            v <= u32::MAX,
            all_digits(b@.subrange(start as int, i as int)),
            v == digits_value(b@.subrange(start as int, i as int)),
        decreases hi - i,
    {
        let c = b[i];
        if c < 48u8 || c > 57u8 {
            assert(!all_digits(b@.subrange(start as int, hi as int))) by {
                assert(b@.subrange(start as int, hi as int)[i - start] == c);
            }
            return None;
        }
        assert(b@.subrange(start as int, i + 1).drop_last() =~= b@.subrange(start as int, i as int));
        let nv = v * 10 + (c - 48u8) as u64;
        if nv > u32::MAX as u64 {
            proof {
                lemma_digits_value_grows(b@.subrange(start as int, hi as int), (i + 1 - start) as int);
                assert(b@.subrange(start as int, hi as int).subrange(0, (i + 1 - start) as int) =~= b@.subrange(start as int, i + 1));
            }
            return None;
        }
        v = nv;
        i += 1;
    }
    Some(v as u32)
}

/// A decimal prefix's value never exceeds the whole's.
proof fn lemma_digits_value_grows(s: Seq<u8>, k: int)
    requires
        0 <= k <= s.len(),
        all_digits(s.subrange(0, k)),
    ensures
        all_digits(s) ==> digits_value(s.subrange(0, k)) <= digits_value(s),
    decreases s.len() - k,
{
    if k < s.len() && all_digits(s) {
        assert(s.subrange(0, k + 1).drop_last() =~= s.subrange(0, k));
        lemma_digits_value_grows(s, k + 1);
    }
    if k == s.len() {
        assert(s.subrange(0, k) =~= s);
    }
}

/// The current installed version of `name` (reads `/apps/<name>.cur`), if any.
pub fn current_version<F: AppFs>(fs: &mut F, name: &str) -> (r: Option<u32>)
    ensures
        final(fs).files() == old(fs).files(),
        r is Some ==> cur_path(name.spec_bytes()).len() <= MAX_PATH
            && old(fs).files().contains_key(cur_path(name.spec_bytes()))
            && old(fs).files()[cur_path(name.spec_bytes())].len() <= 12
            && r == version_spec(old(fs).files()[cur_path(name.spec_bytes())]),
            cur_path(name.spec_bytes()).len() > MAX_PATH ==> r is None,
{
    let mut p = PathBuf::new();
    if build_cur(&mut p, name.as_bytes()).is_err() {
        return None;
    }
    let path = match utf8(vstd::slice::slice_subrange(p.buf.as_slice(), 0, p.len)) {
        Some(s) => s,
        None => { return None; },
    };
    let mut buf = [0u8; 12];
    let n = match fs.read_file(path, &mut buf) {
        Ok(n) => n,
        Err(_) => { return None; },
    };
    version_of(vstd::slice::slice_subrange(buf.as_slice(), 0, n))
}

/// The path of `file` inside version `v` of `name`, built in `out`.
pub fn versioned_path<'a>(name: &str, v: u32, file: &str, out: &'a mut [u8; MAX_PATH]) -> (r: Result<&'a str, InstError>)
    ensures
        versioned(name.spec_bytes(), v, file.spec_bytes()).len() > MAX_PATH ==> r == Err::<&'a str, InstError>(InstError::PathTooLong),
        versioned(name.spec_bytes(), v, file.spec_bytes()).len() <= MAX_PATH ==> (r matches Ok(s) && s.spec_bytes() == versioned(
            name.spec_bytes(), v, file.spec_bytes())),
{
    let mut p = PathBuf::new();
    let apps = [47u8, 97, 112, 112, 115];
    let slash = [47u8];
    let dot = [46u8];
    assert(apps@ =~= apps_dir());
    p.push(apps.as_slice())?;
    p.push(slash.as_slice())?;
    p.push(name.as_bytes())?;
    p.push(dot.as_slice())?;
    p.push_version(v)?;
    let fb = file.as_bytes();
    if fb.len() != 0 {
        p.push(slash.as_slice())?;
        p.push(fb)?;
    }
    assert(p.bytes() =~= versioned(name.spec_bytes(), v, file.spec_bytes()));
    let len = p.len;
    let mut i: usize = 0;
    while i < len
        invariant
            len == p.len <= MAX_PATH,
            i <= len,
            forall|k: int| 0 <= k < i ==> #[trigger] out@[k] == p.buf@[k],
        decreases len - i,
    {
        out[i] = p.buf[i];
        i += 1;
    }
    let done: &'a [u8; MAX_PATH] = out;
    assert(done@.subrange(0, len as int) =~= p.bytes());
    proof {
        encode_utf8_valid_utf8(name@);
        encode_utf8_valid_utf8(file@);
        lemma_versioned_valid(name.spec_bytes(), v, file.spec_bytes());
    }
    Ok(match utf8(vstd::slice::slice_subrange(done.as_slice(), 0, len)) {
        Some(s) => s,
        None => "",
    })
}

/// Installs (or updates) package `pkg`; returns the version installed. Transactional: the
/// pointer `.cur` is written only after all the contents, so a failure before it leaves the
/// current version as it was, and only the new version's directory is touched.
#[verifier::rlimit(60)]
pub fn install<F: AppFs>(fs: &mut F, pkg: &[u8]) -> (r: Result<u32, InstError>)
    ensures
        package_spec(pkg@) matches Err(e) ==> r == Err::<u32, InstError>(InstError::Pkg(e)) && final(fs).files() == old(fs).files(),
        r matches Err(InstError::Pkg(e)) ==> package_spec(pkg@) == Err::<((Seq<u8>, Seq<u8>, Seq<u8>, Seq<u8>), Seq<u8>, u32), PkgError>(e),
        package_spec(pkg@) matches Ok(t) ==> (r matches Ok(v) ==> final(fs).files().contains_key(cur_path(t.0.0))
            && final(fs).files()[cur_path(t.0.0)] == ver_text(v) && kept_outside(old(fs).files(), final(fs).files(), t.0.0, v, true)),
        package_spec(pkg@) matches Ok(t) ==> (r is Err ==> exists|v: u32| #[trigger] kept_outside(old(fs).files(), final(fs).files(), t.0.0, v, false)),
        package_spec(pkg@) matches Ok(t) ==> (r matches Ok(v) ==> installed(
            final(fs).files(),
            t.0.0,
            v,
            table_entries(t.1, t.2 as nat),
            pkg@.subrange(HEADER_LEN as int, HEADER_LEN + le32(pkg@, 12)),
        )),
{
    let ghost f0 = fs.files();
    let p = match Package::parse(pkg) {
        Ok(p) => p,
        Err(e) => { return Err(InstError::Pkg(e)); },
    };
    let m = p.manifest();
    let name = m.name_str();
    let ghost nm = name.spec_bytes();
    let next = match current_version(fs, name) {
        Some(v) => v.wrapping_add(1),
        None => 1,
    };
    assert(kept_outside(f0, fs.files(), nm, next, false));
    let apps = [47u8, 97, 112, 112, 115];
    assert(apps@ =~= apps_dir());
    let apps_str = match utf8(apps.as_slice()) {
        Some(s) => s,
        None => { return Err(InstError::Fs); },
    };
    if fs.mkdir(apps_str).is_err() {
        return Err(InstError::Fs);
    }
    let mut pb = [0u8; MAX_PATH];
    let dir = versioned_path(name, next, "", &mut pb)?;
    if fs.mkdir(dir).is_err() {
        return Err(InstError::Fs);
    }
    let mut pb2 = [0u8; MAX_PATH];
    let mname = [109u8, 97, 110, 105, 102, 101, 115, 116, 46, 116, 120, 116];
    let mname_str = match utf8(mname.as_slice()) {
        Some(s) => s,
        None => { return Err(InstError::Fs); },
    };
    let mpath = versioned_path(name, next, mname_str, &mut pb2)?;
    proof {
        lemma_in_version(nm, next, mname_str.spec_bytes());
    }
    if fs.write_file(mpath, p.manifest_bytes()).is_err() {
        return Err(InstError::Fs);
    }
    assert(kept_outside(f0, fs.files(), nm, next, false));
    let ghost man = pkg@.subrange(HEADER_LEN as int, HEADER_LEN + le32(pkg@, 12));
    let ghost mpath_v = versioned(nm, next, manifest_name());
    let ghost tab = p.view_parts().1;
    let ghost es = table_entries(tab, p.view_parts().2 as nat);
    let ghost mut done: int = 0;
    proof {
        assert(mname_str.spec_bytes() == manifest_name());
        assert(fs.files().contains_key(mpath_v) && fs.files()[mpath_v] == man);
        assert(es.subrange(0, 0) + es =~= es);
        assert(package_spec(pkg@) matches Ok(t) && table_ok(t.1, t.2 as nat));
    }
    let mut it = p.files();
    loop
        invariant
            f0 == old(fs).files(),
            nm == name.spec_bytes(),
            package_spec(pkg@) matches Ok(t) && t.0.0 == nm && t.1 == tab && es == table_entries(t.1, t.2 as nat),
            kept_outside(f0, fs.files(), nm, next, false),
            man == pkg@.subrange(HEADER_LEN as int, HEADER_LEN + le32(pkg@, 12)),
            mpath_v == versioned(nm, next, manifest_name()),
            0 <= done <= es.len(),
            table_ok(it.state().0, it.state().1 as nat),
            es == es.subrange(0, done) + table_entries(it.state().0, it.state().1 as nat),
            installed(fs.files(), nm, next, es.subrange(0, done), man),
            forall|i: int| 0 <= i < done ==> (#[trigger] es[i]).0.len() > 0,
        ensures
            installed(fs.files(), nm, next, es, man),
            kept_outside(f0, fs.files(), nm, next, false),
        decreases it.state().1,
    {
        let ghost st = it.state();
        proof {
            lemma_table_step(st.0, st.1 as nat);
        }
        match it.step() {
            Ok(Some((fname, data))) => {
                let mut pb3 = [0u8; MAX_PATH];
                let fpath = versioned_path(name, next, fname, &mut pb3)?;
                proof {
                    lemma_in_version(nm, next, fname.spec_bytes());
                }
                let ghost before = fs.files();
                if fs.write_file(fpath, data).is_err() {
                    return Err(InstError::Fs);
                }
                proof {
                    let e = (fname.spec_bytes(), data@);
                    let old_done = es.subrange(0, done);
                    assert(es[done] == e) by {
                        assert(es == old_done + (seq![e] + table_entries(it.state().0, it.state().1 as nat)));
                    }
                    lemma_installed_push(before, fs.files(), nm, next, old_done, man, e.0, e.1);
                    assert(es.subrange(0, done + 1) =~= old_done.push(e));
                    assert(es =~= es.subrange(0, done + 1) + table_entries(it.state().0, it.state().1 as nat));
                    done = done + 1;
                }
            },
            _ => {
                proof {
                    assert(st.1 == 0);
                    assert(es.subrange(0, done) =~= es);
                }
                break;
            },
        }
    }
    let mut cur = PathBuf::new();
    build_cur(&mut cur, name.as_bytes())?;
    proof {
        encode_utf8_valid_utf8(name@);
        lemma_cur_valid(nm);
    }
    let cur_str = match utf8(vstd::slice::slice_subrange(cur.buf.as_slice(), 0, cur.len)) {
        Some(s) => s,
        None => { return Err(InstError::Fs); },
    };
    let mut vb = PathBuf::new();
    vb.push_version(next)?;
    let vbytes = vstd::slice::slice_subrange(vb.buf.as_slice(), 0, vb.len);
    let ghost before = fs.files();
    if fs.write_file(cur_str, vbytes).is_err() {
        return Err(InstError::Fs);
    }
    proof {
        lemma_installed_other(before, fs.files(), nm, next, es, man, cur_path(nm), vbytes@);
    }
    Ok(next)
}

/// `manifest.txt`, the name the manifest is installed under.
pub open spec fn manifest_name() -> Seq<u8> {
    seq![109u8, 97, 110, 105, 102, 101, 115, 116, 46, 116, 120, 116]
}

/// The records `(name, data)` of the first `count` records of a file table.
pub open spec fn table_entries(b: Seq<u8>, count: nat) -> Seq<(Seq<u8>, Seq<u8>)>
    decreases count,
{
    if count == 0 {
        Seq::empty()
    } else {
        match file_record(b) {
            Ok((n, d, rest)) => seq![(n, d)] + table_entries(rest, (count - 1) as nat),
            Err(_) => Seq::empty(),
        }
    }
}

/// In `files`, version `v` of `name` holds every file of `entries` under its name (the last
/// of two records with one name wins) and, unless a file takes its name, the manifest `man`
/// as `manifest.txt`.
pub open spec fn installed(files: Map<Seq<u8>, Seq<u8>>, name: Seq<u8>, v: u32, entries: Seq<(Seq<u8>, Seq<u8>)>, man: Seq<u8>) -> bool {
    &&& forall|i: int|
        0 <= i < entries.len() && (forall|j: int| i < j < entries.len() ==> entries[j].0 != entries[i].0) ==> files.contains_key(
            versioned(name, v, #[trigger] entries[i].0),
        ) && files[versioned(name, v, entries[i].0)] == entries[i].1
    &&& (forall|j: int| 0 <= j < entries.len() ==> entries[j].0 != manifest_name()) ==> files.contains_key(
        versioned(name, v, manifest_name()),
    ) && files[versioned(name, v, manifest_name())] == man
}

/// A well-formed table with records left starts with one whose name is not empty.
proof fn lemma_table_step(b: Seq<u8>, count: nat)
    requires
        table_ok(b, count),
    ensures
        count > 0 ==> (file_record(b) matches Ok((n, d, rest)) && n.len() > 0 && table_ok(rest, (count - 1) as nat)
            && table_entries(b, count) == seq![(n, d)] + table_entries(rest, (count - 1) as nat)),
{
}

/// Two files of one version with different non-empty names have different paths.
proof fn lemma_versioned_apart(name: Seq<u8>, v: u32, a: Seq<u8>, b: Seq<u8>)
    requires
        a.len() > 0,
        b.len() > 0,
        a != b,
    ensures
        versioned(name, v, a) != versioned(name, v, b),
{
    let dir = versioned(name, v, Seq::empty());
    if versioned(name, v, a) == versioned(name, v, b) {
        let k = dir.len() as int + 1;
        assert(versioned(name, v, a).subrange(k, versioned(name, v, a).len() as int) =~= a);
        assert(versioned(name, v, b).subrange(k, versioned(name, v, b).len() as int) =~= b);
    }
}

/// Writing the next record keeps what was installed and installs it.
proof fn lemma_installed_push(
    before: Map<Seq<u8>, Seq<u8>>,
    after: Map<Seq<u8>, Seq<u8>>,
    name: Seq<u8>,
    v: u32,
    es: Seq<(Seq<u8>, Seq<u8>)>,
    man: Seq<u8>,
    n: Seq<u8>,
    d: Seq<u8>,
)
    requires
        installed(before, name, v, es, man),
        n.len() > 0,
        after == before.insert(versioned(name, v, n), d),
        forall|i: int| 0 <= i < es.len() ==> (#[trigger] es[i]).0.len() > 0,
    ensures
        installed(after, name, v, es.push((n, d)), man),
{
    let es2 = es.push((n, d));
    assert forall|i: int|
        0 <= i < es2.len() && (forall|j: int| i < j < es2.len() ==> es2[j].0 != es2[i].0) implies after.contains_key(
        versioned(name, v, #[trigger] es2[i].0),
    ) && after[versioned(name, v, es2[i].0)] == es2[i].1 by {
        if i < es.len() {
            assert(es2[es.len() as int].0 != es2[i].0);
            assert(es2[i] == es[i]);
            assert forall|j: int| i < j < es.len() implies es[j].0 != es[i].0 by {
                assert(es2[j] == es[j]);
            }
            lemma_versioned_apart(name, v, es[i].0, n);
        }
    }
    if forall|j: int| 0 <= j < es2.len() ==> es2[j].0 != manifest_name() {
        assert(es2[es.len() as int].0 != manifest_name());
        assert forall|j: int| 0 <= j < es.len() implies es[j].0 != manifest_name() by {
            assert(es2[j] == es[j]);
        }
        lemma_versioned_apart(name, v, manifest_name(), n);
    }
}

/// Writing a path outside version `v` keeps what was installed there.
proof fn lemma_installed_other(
    before: Map<Seq<u8>, Seq<u8>>,
    after: Map<Seq<u8>, Seq<u8>>,
    name: Seq<u8>,
    v: u32,
    es: Seq<(Seq<u8>, Seq<u8>)>,
    man: Seq<u8>,
    k: Seq<u8>,
    d: Seq<u8>,
)
    requires
        installed(before, name, v, es, man),
        k == cur_path(name),
        after == before.insert(k, d),
    ensures
        installed(after, name, v, es, man),
{
    assert forall|f: Seq<u8>| versioned(name, v, f) != k by {
        let p = 6 + name.len() as int + 1;
        assert(k[p] == 99u8);
        assert(versioned(name, v, f)[p] == 118u8);
    }
}

/// The paths written into a version lie in it.
proof fn lemma_in_version(name: Seq<u8>, v: u32, file: Seq<u8>)
    ensures
        in_version(name, v, versioned(name, v, file)),
{
    let dir = versioned(name, v, Seq::empty());
    if file.len() > 0 {
        let k = versioned(name, v, file);
        assert(k.subrange(0, dir.len() as int + 1) =~= dir + seq![47u8]);
    }
}

/// The pointer's path is valid UTF-8 when the name is.
proof fn lemma_cur_valid(name: Seq<u8>)
    requires
        valid_utf8(name),
    ensures
        valid_utf8(cur_path(name)),
{
    let a = apps_dir() + seq![47u8];
    let c = seq![46u8, 99, 117, 114];
    assert forall|k: int| 0 <= k < a.len() implies #[trigger] a[k] < 0x80 by {}
    assert forall|k: int| 0 <= k < c.len() implies #[trigger] c[k] < 0x80 by {}
    lemma_ascii_valid(a);
    lemma_ascii_valid(c);
    valid_utf8_concat(a, name);
    valid_utf8_concat(a + name, c);
}

/// Bytes below 0x80 are valid UTF-8.
proof fn lemma_ascii_valid(s: Seq<u8>)
    requires
        forall|k: int| 0 <= k < s.len() ==> #[trigger] s[k] < 0x80,
    ensures
        valid_utf8(s),
    decreases s.len(),
{
    if s.len() > 0 {
        let rest = s.subrange(1, s.len() as int);
        assert forall|k: int| 0 <= k < rest.len() implies #[trigger] rest[k] < 0x80 by {
            assert(rest[k] == s[k + 1]);
        }
        lemma_ascii_valid(rest);
        assert(vstd::utf8::pop_first_scalar(s) =~= rest);
    }
}

/// Decimal digits are ASCII.
proof fn lemma_decimal_ascii(v: nat)
    ensures
        forall|k: int| 0 <= k < decimal(v).len() ==> #[trigger] decimal(v)[k] < 0x80,
{
    crate::prefs::lemma_decimal_digits(v);
}

/// A path built from text and ASCII separators is valid UTF-8 when the texts are.
proof fn lemma_versioned_valid(name: Seq<u8>, v: u32, file: Seq<u8>)
    requires
        valid_utf8(name),
        valid_utf8(file),
    ensures
        valid_utf8(versioned(name, v, file)),
{
    let a = apps_dir() + seq![47u8];
    assert forall|k: int| 0 <= k < a.len() implies #[trigger] a[k] < 0x80 by {}
    lemma_ascii_valid(a);
    lemma_ascii_valid(seq![46u8]);
    lemma_ascii_valid(seq![47u8]);
    lemma_decimal_ascii(v as nat);
    let vt = ver_text(v);
    assert forall|k: int| 0 <= k < vt.len() implies #[trigger] vt[k] < 0x80 by {
        if k > 0 {
            assert(vt[k] == decimal(v as nat)[k - 1]);
        }
    }
    lemma_ascii_valid(vt);
    valid_utf8_concat(a, name);
    valid_utf8_concat(a + name, seq![46u8]);
    valid_utf8_concat(a + name + seq![46u8], vt);
    let dir = a + name + seq![46u8] + vt;
    assert(dir == apps_dir() + seq![47u8] + name + seq![46u8] + ver_text(v));
    valid_utf8_concat(dir, seq![47u8]);
    valid_utf8_concat(dir + seq![47u8], file);
}

} // verus!
