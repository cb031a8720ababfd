//! What rewriting a file in place writes: FAT entries in every copy of the FAT, and the
//! 8.3 names that directory slots hold.
use vstd::prelude::*;
use crate::bytes::{le32, splice, le32_bytes};
use crate::fat::device::SECTOR;
use crate::fat::layout::{FatKind, Geometry};

verus! {

/// ASCII upper case.
pub open spec fn upper(c: u8) -> u8 {
    if 97 <= c <= 122 { (c - 32) as u8 } else { c }
}

/// The position of the last `.` of `name` before `end`, if any.
pub open spec fn last_dot(name: Seq<u8>, end: int) -> Option<int>
    decreases end,
{
    if end <= 0 {
        None
    } else if name[end - 1] == 46 {
        Some(end - 1)
    } else {
        last_dot(name, end - 1)
    }
}

/// The position of the last `/` of `path` before `end`, if any.
pub open spec fn last_slash(path: Seq<u8>, end: int) -> Option<int>
    decreases end,
{
    if end <= 0 {
        None
    } else if path[end - 1] == 47 {
        Some(end - 1)
    } else {
        last_slash(path, end - 1)
    }
}

/// The parent directory's path and the final name of `path`.
pub open spec fn split_last(path: Seq<u8>) -> (Seq<u8>, Seq<u8>) {
    match last_slash(path, path.len() as int) {
        Some(i) => (path.subrange(0, i), path.subrange(i + 1, path.len() as int)),
        None => (Seq::empty(), path),
    }
}

/// Splits `path` at its last `/`: the parent's path and the final name.
pub fn split_last_slash(path: &[u8]) -> (r: (&[u8], &[u8]))
    ensures
        (r.0@, r.1@) == split_last(path@),
{
    let mut d: usize = path.len();
    while d > 0 && path[d - 1] != 47
        invariant
            d <= path.len(),
            last_slash(path@, path@.len() as int) == last_slash(path@, d as int),
        decreases d,
    {
        d -= 1;
    }
    if d > 0 {
        (vstd::slice::slice_subrange(path, 0, d - 1), vstd::slice::slice_subrange(path, d, path.len()))
    } else {
        (vstd::slice::slice_subrange(path, 0, 0), path)
    }
}

/// The raw 8.3 form of `name` as a directory slot holds it: base and extension upper case,
/// padded with spaces; `None` when it has no 8.3 form.
pub open spec fn name83_spec(name: Seq<u8>) -> Option<Seq<u8>> {
    let (base, ext) = match last_dot(name, name.len() as int) {
        Some(i) => (name.subrange(0, i), name.subrange(i + 1, name.len() as int)),
        None => (name, Seq::empty()),
    };
    if base.len() == 0 || base.len() > 8 || ext.len() > 3 {
        None
    } else {
        Some(Seq::new(11, |k: int| if k < base.len() {
            upper(base[k])
        } else if 8 <= k < 8 + ext.len() {
            upper(ext[k - 8])
        } else {
            32u8
        }))
    }
}

proof fn lemma_last_dot(name: Seq<u8>, end: int)
    requires
        0 <= end <= name.len(),
    ensures
        match last_dot(name, end) {
            Some(i) => 0 <= i < end && name[i] == 46 && forall|k: int| i < k < end ==> name[k] != 46,
            None => forall|k: int| 0 <= k < end ==> name[k] != 46,
        },
    decreases end,
{
    if end > 0 && name[end - 1] != 46 {
        lemma_last_dot(name, end - 1);
    }
}

/// The 8.3 slot form of `name`.
pub fn name_83(name: &[u8]) -> (r: Option<[u8; 11]>)
    ensures
        match r {
            Some(a) => name83_spec(name@) == Some(a@),
            None => name83_spec(name@) is None,
        },
{
    let mut d: usize = name.len();
    while d > 0 && name[d - 1] != 46
        invariant
            d <= name.len(),
            last_dot(name@, name@.len() as int) == last_dot(name@, d as int),
        decreases d,
    {
        d -= 1;
    }
    proof {
        lemma_last_dot(name@, name@.len() as int);
    }
    let (blen, estart) = if d > 0 { (d - 1, d) } else { (name.len(), name.len()) };
    let elen = name.len() - estart;
    if blen == 0 || blen > 8 || elen > 3 {
        return None;
    }
    let mut out = [32u8; 11];
    let mut k: usize = 0;
    while k < 11
        invariant
            k <= 11,
            1 <= blen <= 8,
            elen <= 3,
            estart + elen == name.len(),
            blen <= estart,
            forall|j: int| 0 <= j < k ==> #[trigger] out@[j] == if j < blen {
                upper(name@[j])
            } else if 8 <= j < 8 + elen {
                upper(name@[estart + j - 8])
            } else {
                32u8
            },
        decreases 11 - k,
    {
        let c = if k < blen {
            name[k]
        } else if 8 <= k && k < 8 + elen {
            name[estart + (k - 8)]
        } else {
            32u8
        };
        let c = if k < blen || (8 <= k && k < 8 + elen) {
            if 97 <= c && c <= 122 { c - 32 } else { c }
        } else {
            c
        };
        out[k] = c;
        k += 1;
    }
    proof {
        let (base, ext) = match last_dot(name@, name@.len() as int) {
            Some(i) => (name@.subrange(0, i), name@.subrange(i + 1, name@.len() as int)),
            None => (name@, Seq::empty()),
        };
        assert(base.len() == blen && ext.len() == elen);
        assert(out@ =~= name83_spec(name@).unwrap());
    }
    Some(out)
}

/// The value a FAT entry holds after storing `value` in it (FAT32 keeps its top four bits).
pub open spec fn fat32_word(old: int, value: int) -> int {
    (old / 0x1000_0000) * 0x1000_0000 + value % 0x1000_0000
}

/// The FAT sector holding entry `c`, relative to the start of a FAT, and where in it.
pub open spec fn fat_slot(kind: FatKind, c: int) -> (int, int) {
    let off = match kind {
        FatKind::Fat32 => c * 4,
        FatKind::Fat16 => c * 2,
        FatKind::Fat12 => c * 3 / 2,
    };
    (off / (SECTOR as int), off % (SECTOR as int))
}

/// FAT12 entry `c` set to `value` in the byte pair `(lo, hi)` it shares with a neighbour.
pub open spec fn fat12_pair(c: int, value: int, lo: u8, hi: u8) -> (u8, u8) {
    if c % 2 == 1 {
        ((lo % 16 + (value % 16) * 16) as u8, (value / 16 % 256) as u8)
    } else {
        ((value % 256) as u8, (hi / 16 * 16 + value / 256 % 16) as u8)
    }
}

/// The new contents of the FAT sector(s) holding entry `c` once it is set to `value`: the
/// sector, and for a FAT12 entry that straddles two sectors, the next one too.
pub open spec fn fat_update(kind: FatKind, c: int, value: int, s: Seq<u8>, t: Seq<u8>) -> (Seq<u8>, Option<Seq<u8>>) {
    let (sec, i) = fat_slot(kind, c);
    match kind {
        FatKind::Fat32 => (splice(s, i, le32_bytes(fat32_word(le32(s, i), value))), None),
        FatKind::Fat16 => (splice(s, i, seq![(value % 256) as u8, (value / 256 % 256) as u8]), None),
        FatKind::Fat12 => if i == SECTOR - 1 {
            let (lo, hi) = fat12_pair(c, value, s[i], t[0]);
            (s.update(i, lo), Some(t.update(0, hi)))
        } else {
            let (lo, hi) = fat12_pair(c, value, s[i], s[i + 1]);
            (s.update(i, lo).update(i + 1, hi), None)
        },
    }
}

/// `secs` after writing FAT sector `sec` (relative) as `s`, and `t` after it when given, into
/// copies `k..copies` of the FAT, one copy after another.
pub open spec fn write_copies(
    secs: Seq<Seq<u8>>,
    g: Geometry,
    sec: int,
    s: Seq<u8>,
    t: Option<Seq<u8>>,
    k: int,
    copies: int,
) -> Seq<Seq<u8>>
    decreases copies - k,
{
    if k >= copies || k < 0 {
        secs
    } else {
        let base = g.fat_start + k * g.fat_sectors;
        let once = secs.update(base + sec, s);
        let twice = match t {
            Some(tt) => once.update(base + sec + 1, tt),
            None => once,
        };
        write_copies(twice, g, sec, s, t, k + 1, copies)
    }
}

} // verus!
