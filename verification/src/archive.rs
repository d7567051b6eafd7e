//! Random-access reader for the packed archive format: data bodies first,
//! then a directory table at the offset the file's last eight bytes give.
//!
//! The trailer offset and all directory fields are read little-endian; a
//! trailer that does not fit a signed 64-bit value is rejected as
//! structurally invalid.

use vstd::prelude::*;
use vstd::bytes::{spec_u32_from_le_bytes, spec_u64_from_le_bytes, u32_from_le_bytes, u64_from_le_bytes};
use vstd::slice::{slice_subrange, slice_to_vec};
use vstd::string::StringSliceAdditionalSpecFns;

verus! {

/// One directory record: a raw file name and the byte range of its body.
#[derive(Debug, PartialEq, Eq)]
pub struct ArchiveEntry {
    pub name: Vec<u8>,
    pub offset: u64,
    pub length: u64,
}

/// Mathematical form of an `ArchiveEntry`.
#[verifier::ext_equal]
pub struct EntryV {
    pub name: Seq<u8>,
    pub offset: u64,
    pub length: u64,
}

impl View for ArchiveEntry {
    type V = EntryV;

    open spec fn view(&self) -> EntryV {
        EntryV { name: self.name@, offset: self.offset, length: self.length }
    }
}

/// An opened archive: the raw bytes and the parsed directory.
#[derive(Debug, PartialEq, Eq)]
pub struct Archive {
    pub data: Vec<u8>,
    pub files: Vec<ArchiveEntry>,
    pub case_sensitive: bool,
}

/// Mathematical form of an `Archive`.
#[verifier::ext_equal]
pub struct ArchiveV {
    pub data: Seq<u8>,
    pub files: Seq<EntryV>,
    pub case_sensitive: bool,
}

impl View for Archive {
    type V = ArchiveV;

    open spec fn view(&self) -> ArchiveV {
        ArchiveV {
            data: self.data@,
            files: self.files@.map_values(|e: ArchiveEntry| e@),
            case_sensitive: self.case_sensitive,
        }
    }
}

/// Why an archive cannot be opened.
#[derive(Debug, Clone, Copy, PartialEq, Eq, Structural)]
pub enum ArchiveError {
    /// The file ends before a trailer, the directory or a record does.
    Truncated,
    /// The trailer offset is not a valid signed 64-bit file position.
    BadTrailer,
    /// The directory does not begin with the expected identification.
    BadMagic,
}

/// The ten bytes of ASCII `LEGARCHTBL` that open the directory.
pub open spec fn magic() -> Seq<u8> {
    seq![76u8, 69u8, 71u8, 65u8, 82u8, 67u8, 72u8, 84u8, 66u8, 76u8]
}

/// Index of the first occurrence of `x` in `s`, or `-1` when absent.
pub open spec fn find_byte(s: Seq<u8>, x: u8) -> int
    decreases s.len(),
{
    if s.len() == 0 {
        -1
    } else if s[0] == x {
        0
    } else {
        let r = find_byte(s.drop_first(), x);
        if r == -1 {
            -1
        } else {
            r + 1
        }
    }
}

pub proof fn lemma_find_byte(s: Seq<u8>, x: u8)
    ensures
        find_byte(s, x) == -1 ==> forall|i: int| 0 <= i < s.len() ==> s[i] != x,
        find_byte(s, x) != -1 ==> {
            &&& 0 <= find_byte(s, x) < s.len()
            &&& s[find_byte(s, x)] == x
            &&& forall|i: int| 0 <= i < find_byte(s, x) ==> s[i] != x
        },
    decreases s.len(),
{
    if s.len() > 0 && s[0] != x {
        let t = s.drop_first();
        lemma_find_byte(t, x);
        assert(forall|i: int| 1 <= i < s.len() ==> s[i] == t[i - 1]);
        if find_byte(t, x) == -1 {
            assert forall|i: int| 0 <= i < s.len() implies s[i] != x by {
                if i >= 1 {
                    assert(s[i] == t[i - 1]);
                }
            }
        } else {
            let j = find_byte(t, x);
            assert(s[j + 1] == t[j]);
            assert forall|i: int| 0 <= i < j + 1 implies s[i] != x by {
                if i >= 1 {
                    assert(s[i] == t[i - 1]);
                }
            }
        }
    }
}

/// The directory records, parsed in order from cursor `c`; `None` when the
/// data runs out before `count` records are read.
pub open spec fn parse_records(data: Seq<u8>, c: int, count: nat) -> Option<Seq<EntryV>>
    decreases count,
{
    if count == 0 {
        Some(Seq::empty())
    } else if !(0 <= c <= data.len()) {
        None
    } else {
        let z = find_byte(data.skip(c), 0);
        if z == -1 {
            None
        } else {
            let name = data.subrange(c, c + z);
            let c2 = c + z + 1;
            if c2 + 12 <= data.len() {
                let off = spec_u64_from_le_bytes(data.subrange(c2, c2 + 8));
                let len32 = spec_u32_from_le_bytes(data.subrange(c2 + 8, c2 + 12));
                match parse_records(data, c2 + 12, (count - 1) as nat) {
                    None => None,
                    Some(rest) => Some(
                        seq![EntryV { name, offset: off, length: len32 as u64 }] + rest,
                    ),
                }
            } else {
                None
            }
        }
    }
}

/// What opening an archive yields: the trailer locates the directory, the
/// directory identifies itself, then `count` records follow.
pub open spec fn parse_archive(data: Seq<u8>, case_sensitive: bool) -> Result<
    ArchiveV,
    ArchiveError,
> {
    let n = data.len() as int;
    if n < 8 {
        Err(ArchiveError::Truncated)
    } else {
        let trailer = spec_u64_from_le_bytes(data.subrange(n - 8, n));
        if trailer > i64::MAX as u64 || trailer > usize::MAX as u64 {
            Err(ArchiveError::BadTrailer)
        } else {
            let c = trailer as int;
            if c + 14 > n {
                Err(ArchiveError::Truncated)
            } else if data.subrange(c, c + 10) != magic() {
                Err(ArchiveError::BadMagic)
            } else {
                let count = spec_u32_from_le_bytes(data.subrange(c + 10, c + 14));
                match parse_records(data, c + 14, count as nat) {
                    None => Err(ArchiveError::Truncated),
                    Some(files) => Ok(ArchiveV { data, files, case_sensitive }),
                }
            }
        }
    }
}

fn find_zero_from(data: &Vec<u8>, c: usize) -> (r: Option<usize>)
    requires
        c <= data@.len(),
    ensures
        match r {
            Some(z) => z as int == find_byte(data@.skip(c as int), 0),
            None => find_byte(data@.skip(c as int), 0) == -1,
        },
{
    let ghost tail = data@.skip(c as int);
    let n = data.len();
    let mut j: usize = c;
    while j < n
        invariant
            c <= j <= n,
            n == data@.len(),
            tail == data@.skip(c as int),
            forall|k: int| 0 <= k < j - c ==> tail[k] != 0,
        decreases n - j,
    {
        if data[j] == 0 {
            proof {
                lemma_find_byte(tail, 0);
                assert(tail[j - c] == 0);
                if find_byte(tail, 0) == -1 {
                    assert(false);
                }
                assert(find_byte(tail, 0) <= j - c);
                assert(find_byte(tail, 0) >= j - c);
            }
            return Some(j - c);
        }
        j = j + 1;
    }
    proof {
        lemma_find_byte(tail, 0);
        if find_byte(tail, 0) != -1 {
            assert(tail[find_byte(tail, 0)] == 0);
        }
    }
    None
}

/// Open an archive held in memory: read the trailer, check the directory's
/// identification, and parse all records. Structural faults are fatal.
pub fn load(data: Vec<u8>, case_sensitive: bool) -> (r: Result<Archive, ArchiveError>)
    ensures
        match parse_archive(data@, case_sensitive) {
            Ok(av) => r matches Ok(a) && a@ == av,
            Err(e) => r matches Err(e2) && e2 == e,
        },
{
    let n = data.len();
    if n < 8 {
        return Err(ArchiveError::Truncated);
    }
    let trailer = u64_from_le_bytes(slice_subrange(data.as_slice(), n - 8, n));
    if trailer > i64::MAX as u64 || trailer > usize::MAX as u64 {
        return Err(ArchiveError::BadTrailer);
    }
    let c0 = trailer as usize;
    if n < 14 || c0 > n - 14 {
        return Err(ArchiveError::Truncated);
    }
    let head = slice_subrange(data.as_slice(), c0, c0 + 10);
    let magic_ok = head[0] == 76 && head[1] == 69 && head[2] == 71 && head[3] == 65 && head[4]
        == 82 && head[5] == 67 && head[6] == 72 && head[7] == 84 && head[8] == 66 && head[9]
        == 76;
    if !magic_ok {
        proof {
            if data@.subrange(c0 as int, c0 + 10) == magic() {
                assert(head@[0] == 76u8 && head@[1] == 69u8 && head@[2] == 71u8 && head@[3]
                    == 65u8 && head@[4] == 82u8 && head@[5] == 67u8 && head@[6] == 72u8
                    && head@[7] == 84u8 && head@[8] == 66u8 && head@[9] == 76u8);
            }
        }
        return Err(ArchiveError::BadMagic);
    }
    proof {
        assert(data@.subrange(c0 as int, c0 + 10) =~= magic());
    }
    let count = u32_from_le_bytes(slice_subrange(data.as_slice(), c0 + 10, c0 + 14));
    let ghost c_start: int = c0 + 14;
    let mut files: Vec<ArchiveEntry> = Vec::new();
    let mut cur: usize = c0 + 14;
    let mut i: u32 = 0;
    proof {
        assert(parse_records(data@, c_start, (count - i) as nat) == parse_records(
            data@,
            cur as int,
            (count - i) as nat,
        ));
    }
    while i < count
        invariant
            0 <= i <= count,
            n == data@.len(),
            cur <= data@.len(),
            ({
                let full = parse_records(data@, c_start, count as nat);
                &&& (full is None ==> parse_archive(data@, case_sensitive) == Err::<
                    ArchiveV,
                    ArchiveError,
                >(ArchiveError::Truncated))
                &&& (full matches Some(fs) ==> parse_archive(data@, case_sensitive) == Ok::<
                    ArchiveV,
                    ArchiveError,
                >(ArchiveV { data: data@, files: fs, case_sensitive }))
            }),
            ({
                let rest = parse_records(data@, cur as int, (count - i) as nat);
                match rest {
                    Some(t) => parse_records(data@, c_start, count as nat) == Some(
                        files@.map_values(|e: ArchiveEntry| e@) + t,
                    ),
                    None => parse_records(data@, c_start, count as nat) is None,
                }
            }),
        decreases count - i,
    {
        let z = match find_zero_from(&data, cur) {
            Some(z) => z,
            None => {
                proof {
                    assert(parse_records(data@, cur as int, (count - i) as nat) is None);
                }
                return Err(ArchiveError::Truncated);
            },
        };
        proof {
            lemma_find_byte(data@.skip(cur as int), 0);
            assert((z as int) < data@.len() - cur);
        }
        let name_bytes = slice_to_vec(slice_subrange(data.as_slice(), cur, cur + z));
        assert(name_bytes@ =~= data@.subrange(cur as int, cur + z));
        let c2 = cur + z + 1;
        if n < 12 || c2 > n - 12 {
            proof {
                assert(parse_records(data@, cur as int, (count - i) as nat) is None);
            }
            return Err(ArchiveError::Truncated);
        }
        let off = u64_from_le_bytes(slice_subrange(data.as_slice(), c2, c2 + 8));
        let len32 = u32_from_le_bytes(slice_subrange(data.as_slice(), c2 + 8, c2 + 12));
        let ghost out_before = files@.map_values(|e: ArchiveEntry| e@);
        files.push(ArchiveEntry { name: name_bytes, offset: off, length: len32 as u64 });
        proof {
            let ev = EntryV {
                name: data@.subrange(cur as int, cur + z),
                offset: off,
                length: len32 as u64,
            };
            assert(files@.map_values(|e: ArchiveEntry| e@) =~= out_before + seq![ev]);
            let rest1 = parse_records(data@, c2 + 12, (count - i - 1) as nat);
            match rest1 {
                Some(t1) => {
                    assert(parse_records(data@, cur as int, (count - i) as nat) == Some(
                        seq![ev] + t1,
                    ));
                    assert(out_before + (seq![ev] + t1) =~= (out_before + seq![ev]) + t1);
                },
                None => {
                    assert(parse_records(data@, cur as int, (count - i) as nat) is None);
                },
            }
        }
        cur = c2 + 12;
        i = i + 1;
    }
    proof {
        assert(parse_records(data@, cur as int, 0) == Some(Seq::<EntryV>::empty()));
        assert(files@.map_values(|e: ArchiveEntry| e@) + Seq::<EntryV>::empty()
            =~= files@.map_values(|e: ArchiveEntry| e@));
    }
    let a = Archive { data, files, case_sensitive };
    Ok(a)
}

/// ASCII lower case of one byte.
pub open spec fn lower8(b: u8) -> u8 {
    if 65 <= b <= 90 {
        (b + 32) as u8
    } else {
        b
    }
}

/// Byte equality up to ASCII case, which is what `eq_ignore_ascii_case`
/// computes on the UTF-8 bytes of two names.
pub open spec fn bytes_ieq(a: Seq<u8>, b: Seq<u8>) -> bool {
    a.len() == b.len() && forall|i: int| 0 <= i < a.len() ==> lower8(a[i]) == lower8(b[i])
}

/// Whether a record's name matches a lookup name under the archive's
/// configured case sensitivity.
pub open spec fn names_match(entry: Seq<u8>, q: Seq<u8>, cs: bool) -> bool {
    if cs {
        entry == q
    } else {
        bytes_ieq(entry, q)
    }
}

/// Index of the first record whose name matches, or `-1`.
pub open spec fn find_entry(files: Seq<EntryV>, q: Seq<u8>, cs: bool) -> int
    decreases files.len(),
{
    if files.len() == 0 {
        -1
    } else if names_match(files[0].name, q, cs) {
        0
    } else {
        let r = find_entry(files.drop_first(), q, cs);
        if r == -1 {
            -1
        } else {
            r + 1
        }
    }
}

/// What `read` returns: the body bytes of the first matching record, or
/// nothing when no record matches or its range lies outside the data.
pub open spec fn read_spec(a: ArchiveV, q: Seq<u8>) -> Option<Seq<u8>> {
    let i = find_entry(a.files, q, a.case_sensitive);
    if i == -1 {
        None
    } else {
        let e = a.files[i];
        if e.offset + e.length <= a.data.len() {
            Some(a.data.subrange(e.offset as int, e.offset + e.length))
        } else {
            None
        }
    }
}

fn byte_eq_ci(a: u8, b: u8) -> (r: bool)
    ensures
        r == (lower8(a) == lower8(b)),
{
    let la: u8 = if 65 <= a && a <= 90 {
        a + 32
    } else {
        a
    };
    let lb: u8 = if 65 <= b && b <= 90 {
        b + 32
    } else {
        b
    };
    la == lb
}

fn name_matches(entry: &Vec<u8>, q: &[u8], cs: bool) -> (r: bool)
    ensures
        r == names_match(entry@, q@, cs),
{
    let n = entry.len();
    if n != q.len() {
        return false;
    }
    let mut i: usize = 0;
    while i < n
        invariant
            0 <= i <= n,
            n == entry@.len(),
            n == q@.len(),
            cs ==> forall|k: int| 0 <= k < i ==> entry@[k] == q@[k],
            !cs ==> forall|k: int| 0 <= k < i ==> lower8(entry@[k]) == lower8(q@[k]),
        decreases n - i,
    {
        if cs {
            if entry[i] != q[i] {
                return false;
            }
        } else {
            if !byte_eq_ci(entry[i], q[i]) {
                return false;
            }
        }
        i = i + 1;
    }
    proof {
        if cs {
            assert(entry@ =~= q@);
        }
    }
    true
}

proof fn lemma_find_entry_at(files: Seq<EntryV>, q: Seq<u8>, cs: bool, j: int)
    requires
        0 <= j <= files.len(),
        forall|k: int| 0 <= k < j ==> !names_match((#[trigger] files[k]).name, q, cs),
        j == files.len() || names_match(files[j].name, q, cs),
    ensures
        find_entry(files, q, cs) == if j == files.len() {
            -1int
        } else {
            j
        },
    decreases files.len(),
{
    if files.len() > 0 {
        if j == 0 {
        } else {
            let t = files.drop_first();
            assert(forall|k: int| 0 <= k < files.len() - 1 ==> #[trigger] t[k] == files[k + 1]);
            assert forall|k: int| 0 <= k < j - 1 implies !names_match(
                (#[trigger] t[k]).name,
                q,
                cs,
            ) by {
                assert(t[k] == files[k + 1]);
            }
            lemma_find_entry_at(t, q, cs, j - 1);
            assert(!names_match(files[0].name, q, cs));
        }
    }
}

impl Archive {
    /// The body of the first record named `name`, compared exactly or
    /// ASCII-case-insensitively per the archive's configuration. A miss is
    /// not an error; repeated reads of one name return identical bytes,
    /// since the result is a pure function of the archive and the name.
    pub fn read(&self, name: &str) -> (r: Option<Vec<u8>>)
        ensures
            match r {
                Some(v) => read_spec(self@, name.spec_bytes()) == Some(v@),
                None => read_spec(self@, name.spec_bytes()) is None,
            },
    {
        let q: &[u8] = name.as_bytes();
        let ghost fv = self.files@.map_values(|e: ArchiveEntry| e@);
        let n = self.files.len();
        let mut i: usize = 0;
        while i < n
            invariant
                0 <= i <= n,
                n == self.files@.len(),
                fv == self.files@.map_values(|e: ArchiveEntry| e@),
                q@ == name.spec_bytes(),
                forall|k: int|
                    0 <= k < i ==> !names_match((#[trigger] fv[k]).name, q@, self.case_sensitive),
            decreases n - i,
        {
            if name_matches(&self.files[i].name, q, self.case_sensitive) {
                proof {
                    lemma_find_entry_at(fv, q@, self.case_sensitive, i as int);
                }
                let e = &self.files[i];
                let dl = self.data.len();
                if e.length as u128 > dl as u128 || e.offset as u128 > (dl as u128) - (
                e.length as u128) {
                    return None;
                }
                let start = e.offset as usize;
                let len = e.length as usize;
                let body = slice_to_vec(slice_subrange(self.data.as_slice(), start, start + len));
                assert(body@ =~= self@.data.subrange(e@.offset as int, e@.offset + e@.length));
                return Some(body);
            }
            i = i + 1;
        }
        proof {
            lemma_find_entry_at(fv, q@, self.case_sensitive, n as int);
        }
        None
    }
}

} // verus!
