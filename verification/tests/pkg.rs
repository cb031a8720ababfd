use lib::pkg::{crc32, Manifest, Package, PkgError, VERSION};

const MAGIC: &[u8; 8] = b"NEXOPKG1";

fn build(manifest: &str, files: &[(&str, &[u8])]) -> Vec<u8> {
    let mut payload = Vec::from(manifest.as_bytes());
    for (name, data) in files {
        payload.extend_from_slice(&(name.len() as u16).to_le_bytes());
        payload.extend_from_slice(name.as_bytes());
        payload.extend_from_slice(&(data.len() as u32).to_le_bytes());
        payload.extend_from_slice(data);
    }
    let mut out = Vec::from(&MAGIC[..]);
    out.extend_from_slice(&VERSION.to_le_bytes());
    out.extend_from_slice(&(manifest.len() as u32).to_le_bytes());
    out.extend_from_slice(&(files.len() as u32).to_le_bytes());
    out.extend_from_slice(&crc32(&payload).to_le_bytes());
    out.extend_from_slice(&payload);
    out
}

const MANIFEST: &str =
    "# app de teste\nname=calc\nversion=0.1.0\nentry=calc.elf\nperms=janelas, clipboard\n";

#[test]
fn round_trip_manifest_and_files() {
    let bytes = build(MANIFEST, &[("calc.elf", b"ELFDATA"), ("icone.px", b"\x01\x02")]);
    let pkg = Package::parse(&bytes).unwrap();
    let m = pkg.manifest();
    assert_eq!(m.name, "calc");
    assert_eq!(m.version, "0.1.0");
    assert_eq!(m.entry, "calc.elf");
    let perms: Vec<&str> = m.perms();
    assert_eq!(perms, ["janelas", "clipboard"]);
    assert!(m.declares("clipboard"));
    assert!(!m.declares("rede"));
    assert_eq!(pkg.file_count(), 2);
    assert_eq!(pkg.file("calc.elf").unwrap(), b"ELFDATA");
    assert_eq!(pkg.file("icone.px").unwrap(), b"\x01\x02");
    assert!(pkg.file("nao-existe").is_none());
    let mut names = Vec::new();
    let mut it = pkg.files();
    while let Ok(Some((n, _))) = it.step() {
        names.push(n);
    }
    assert_eq!(names, ["calc.elf", "icone.px"]);
}

#[test]
fn rejects_bad_magic_version_crc() {
    let good = build(MANIFEST, &[("a", b"x")]);
    let mut bad = good.clone();
    bad[0] = b'X';
    assert_eq!(Package::parse(&bad).unwrap_err(), PkgError::BadMagic);
    let mut bad = good.clone();
    bad[8] = 9;
    assert_eq!(Package::parse(&bad).unwrap_err(), PkgError::BadVersion);
    let mut bad = good.clone();
    let last = bad.len() - 1;
    bad[last] ^= 0xff;
    assert_eq!(Package::parse(&bad).unwrap_err(), PkgError::BadCrc);
}

#[test]
fn rejects_bad_manifests() {
    let bytes = build("name=a\nversion=1\n", &[]);
    assert_eq!(Package::parse(&bytes).unwrap_err(), PkgError::BadManifest);
    let bytes = build("name=a\nversion=1\nentry=e\nmalicia=1\n", &[]);
    assert_eq!(Package::parse(&bytes).unwrap_err(), PkgError::BadManifest);
    let bytes = build("name\n", &[]);
    assert_eq!(Package::parse(&bytes).unwrap_err(), PkgError::BadManifest);
}

#[test]
fn lib_fuzz_lite_truncations_never_panic() {
    let bytes = build(MANIFEST, &[("calc.elf", b"ELFDATA"), ("b", b"1234")]);
    for n in 0..bytes.len() {
        let _ = Package::parse(&bytes[..n]);
    }
    for i in 0..bytes.len() {
        let mut m = bytes.clone();
        m[i] ^= 0x5a;
        let _ = Package::parse(&m);
    }
}

#[test]
fn manifest_edges() {
    let m = Manifest::parse(" name = \u{2003}ré\u{2003} \r\n\nversion=2\nentry=x\nname=ok\nperms= ,a,, b ,\n".as_bytes()).unwrap();
    assert_eq!(m.name, "ok");
    assert_eq!(m.perms(), ["a", "b"]);
    assert!(Manifest::parse(b"name=\nversion=1\nentry=e").is_err());
    assert!(Manifest::parse(b"name=a\nversion=12345678901234567\nentry=e").is_err());
    assert!(Manifest::parse(b"name=a\nversion=1\nentry=e\xff").is_err());
    let m = Manifest::parse("#c\nname=\u{2003}ré\nversion=1\nentry=e".as_bytes()).unwrap();
    assert_eq!(m.name, "ré");
    assert!(m.perms().is_empty());
    let bytes = build(MANIFEST, &[("a", b"x")]);
    let mut extra = bytes.clone();
    extra.push(0);
    assert_eq!(Package::parse(&extra).unwrap_err(), PkgError::BadCrc);
}
