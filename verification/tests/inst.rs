use lib::inst::{current_version, install, versioned_path, AppFs, FsErr, InstError, MAX_PATH};
use lib::pkg::{crc32, VERSION};
use std::collections::{BTreeMap, BTreeSet};

/// File system with failure injection: each mutating operation counts; from `fail_after` on,
/// they fail.
struct Mock {
    files: BTreeMap<String, Vec<u8>>,
    dirs: BTreeSet<String>,
    ops: usize,
    fail_after: usize,
}

impl Mock {
    fn new() -> Mock {
        Mock { files: BTreeMap::new(), dirs: BTreeSet::new(), ops: 0, fail_after: usize::MAX }
    }

    fn tick(&mut self) -> Result<(), FsErr> {
        self.ops += 1;
        if self.ops > self.fail_after {
            Err(FsErr)
        } else {
            Ok(())
        }
    }
}

impl AppFs for Mock {
    fn mkdir(&mut self, path: &str) -> Result<(), FsErr> {
        self.tick()?;
        self.dirs.insert(path.to_string());
        Ok(())
    }
    fn write_file(&mut self, path: &str, data: &[u8]) -> Result<(), FsErr> {
        self.tick()?;
        self.files.insert(path.to_string(), Vec::from(data));
        Ok(())
    }
    fn read_file(&mut self, path: &str, buf: &mut [u8]) -> Result<usize, FsErr> {
        let d = self.files.get(path).ok_or(FsErr)?;
        if d.len() > buf.len() {
            return Err(FsErr);
        }
        buf[..d.len()].copy_from_slice(d);
        Ok(d.len())
    }
}

fn pkg(version: &str, payload: &[u8]) -> Vec<u8> {
    let manifest = format!("name=calc\nversion={version}\nentry=calc.elf\nperms=janelas\n");
    let mut body = Vec::from(manifest.as_bytes());
    for (name, data) in [("calc.elf", payload), ("leia.txt", b"ola".as_slice())] {
        body.extend_from_slice(&(name.len() as u16).to_le_bytes());
        body.extend_from_slice(name.as_bytes());
        body.extend_from_slice(&(data.len() as u32).to_le_bytes());
        body.extend_from_slice(data);
    }
    let mut out = Vec::from(&b"NEXOPKG1"[..]);
    out.extend_from_slice(&VERSION.to_le_bytes());
    out.extend_from_slice(&(manifest.len() as u32).to_le_bytes());
    out.extend_from_slice(&2u32.to_le_bytes());
    out.extend_from_slice(&crc32(&body).to_le_bytes());
    out.extend_from_slice(&body);
    out
}

#[test]
fn install_and_update_flip_the_pointer() {
    let mut fs = Mock::new();
    assert_eq!(install(&mut fs, &pkg("1", b"AAA")).unwrap(), 1);
    assert_eq!(current_version(&mut fs, "calc"), Some(1));
    assert_eq!(fs.files["/apps/calc.v1/calc.elf"], b"AAA");
    assert!(fs.files.contains_key("/apps/calc.v1/manifest.txt"));
    assert_eq!(install(&mut fs, &pkg("2", b"BBB")).unwrap(), 2);
    assert_eq!(current_version(&mut fs, "calc"), Some(2));
    assert_eq!(fs.files["/apps/calc.v2/calc.elf"], b"BBB");
    assert_eq!(fs.files["/apps/calc.v1/calc.elf"], b"AAA");
}

#[test]
fn bad_package_touches_nothing() {
    let mut fs = Mock::new();
    let mut bad = pkg("1", b"AAA");
    bad[0] = b'X';
    assert!(matches!(install(&mut fs, &bad), Err(InstError::Pkg(_))));
    assert!(fs.files.is_empty() && fs.dirs.is_empty());
}

#[test]
fn power_cut_at_every_op_preserves_current_version() {
    for k in 0..8 {
        let mut fs = Mock::new();
        install(&mut fs, &pkg("1", b"AAA")).unwrap();
        let ops0 = fs.ops;
        fs.fail_after = ops0 + k;
        let r = install(&mut fs, &pkg("2", b"BBB"));
        if r.is_ok() {
            assert_eq!(current_version(&mut fs, "calc"), Some(2));
            assert_eq!(fs.files["/apps/calc.v2/calc.elf"], b"BBB");
        } else {
            assert_eq!(current_version(&mut fs, "calc"), Some(1));
            assert_eq!(fs.files["/apps/calc.v1/calc.elf"], b"AAA");
            fs.fail_after = usize::MAX;
            assert_eq!(install(&mut fs, &pkg("2", b"BBB")).unwrap(), 2);
            assert_eq!(current_version(&mut fs, "calc"), Some(2));
            assert_eq!(fs.files["/apps/calc.v2/calc.elf"], b"BBB");
        }
    }
}

#[test]
fn versioned_path_builds_and_limits() {
    let mut b = [0u8; MAX_PATH];
    assert_eq!(versioned_path("calc", 3, "calc.elf", &mut b).unwrap(), "/apps/calc.v3/calc.elf");
    let long = core::str::from_utf8(&[b'a'; 90]).unwrap();
    let mut b2 = [0u8; MAX_PATH];
    assert!(matches!(versioned_path(long, 1, "x", &mut b2), Err(InstError::PathTooLong)));
}

#[test]
fn versioned_directory_and_big_versions() {
    let mut b = [0u8; MAX_PATH];
    assert_eq!(versioned_path("calc", 0, "", &mut b).unwrap(), "/apps/calc.v0");
    let mut b = [0u8; MAX_PATH];
    assert_eq!(versioned_path("x", 4294967295, "a", &mut b).unwrap(), "/apps/x.v4294967295/a");
}

#[test]
fn current_version_reads_the_pointer() {
    let mut fs = Mock::new();
    assert_eq!(current_version(&mut fs, "calc"), None);
    fs.files.insert("/apps/calc.cur".into(), b"v 42 \n".to_vec());
    assert_eq!(current_version(&mut fs, "calc"), Some(42));
    fs.files.insert("/apps/calc.cur".into(), b"v+7".to_vec());
    assert_eq!(current_version(&mut fs, "calc"), Some(7));
    fs.files.insert("/apps/calc.cur".into(), b"7".to_vec());
    assert_eq!(current_version(&mut fs, "calc"), None);
    fs.files.insert("/apps/calc.cur".into(), b"v99999999999".to_vec());
    assert_eq!(current_version(&mut fs, "calc"), None);
    fs.files.insert("/apps/calc.cur".into(), b"vx".to_vec());
    assert_eq!(current_version(&mut fs, "calc"), None);
}
