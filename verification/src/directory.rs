//! The table directory of a font container.

use vstd::prelude::*;
use crate::bytes::{be_u16, be_u32, copy_range, read_u16, read_u32};

verus! {

/// Why a byte buffer is not a container, or a table not of its layout.
#[derive(Clone, Copy, Debug, PartialEq, Eq, Structural)]
pub enum FormatError {
    /// The buffer ends before the header, the directory or a table's data.
    Truncated,
    /// A field holds a value that cannot be right.
    Malformed,
    /// Two directory entries carry the same tag.
    DuplicateTag,
}

/// Length of the header in bytes.
pub const HEADER_LEN: usize = 12;

/// Length of one directory record in bytes.
pub const RECORD_LEN: usize = 16;

/// Version tag of a container with TrueType outlines.
pub const MAGIC_TRUETYPE: u32 = 0x0001_0000;

/// Version tag `OTTO`.
pub const MAGIC_OPENTYPE: u32 = 0x4F54_544F;

/// Version tag `true`.
pub const MAGIC_APPLE: u32 = 0x7472_7565;

/// Signature of a compressed font package.
pub const MAGIC_COMPRESSED: u32 = 0x774F_4632;

/// Whether `bytes` start with the signature of a compressed package, which
/// has to be decompressed before it can be parsed.
pub fn is_compressed(bytes: &[u8]) -> (r: bool)
    ensures
        r == (bytes@.len() >= 4 && be_u32(bytes@, 0) == MAGIC_COMPRESSED),
{
    bytes.len() >= 4 && read_u32(bytes, 0) == MAGIC_COMPRESSED
}

/// One table of a container.
#[derive(Clone, Debug)]
pub struct TableEntry {
    pub tag: u32,
    pub checksum: u32,
    pub offset: u32,
    pub length: u32,
    pub data: Vec<u8>,
}

/// What a table entry holds, as mathematical values.
pub struct TableView {
    pub tag: u32,
    pub checksum: u32,
    pub offset: u32,
    pub length: u32,
    pub data: Seq<u8>,
}

impl View for TableEntry {
    type V = TableView;

    open spec fn view(&self) -> TableView {
        TableView {
            tag: self.tag,
            checksum: self.checksum,
            offset: self.offset,
            length: self.length,
            data: self.data@,
        }
    }
}

/// A parsed container: its tables in directory order.
#[derive(Clone, Debug)]
pub struct Container {
    pub version: u32,
    pub entries: Vec<TableEntry>,
}

impl View for Container {
    type V = Seq<TableView>;

    open spec fn view(&self) -> Seq<TableView> {
        Seq::new(self.entries@.len(), |i: int| self.entries@[i]@)
    }
}

/// Whether `v` is one of the three version tags of a container.
pub open spec fn known_magic(v: int) -> bool {
    v == MAGIC_TRUETYPE || v == MAGIC_OPENTYPE || v == MAGIC_APPLE
}

/// Position of the `i`-th directory record.
pub open spec fn record_pos(i: int) -> int {
    12 + 16 * i
}

/// The `i`-th directory record of `b`, with the bytes it points at.
pub open spec fn record_at(b: Seq<u8>, i: int) -> TableView {
    let p = record_pos(i);
    TableView {
        tag: be_u32(b, p) as u32,
        checksum: be_u32(b, p + 4) as u32,
        offset: be_u32(b, p + 8) as u32,
        length: be_u32(b, p + 12) as u32,
        data: b.subrange(be_u32(b, p + 8), be_u32(b, p + 8) + be_u32(b, p + 12)),
    }
}

/// What is wrong with the extent of the `i`-th record, if anything: data
/// that starts past the buffer is malformed, data that starts inside it and
/// runs past its end is truncated.
pub open spec fn record_fault(b: Seq<u8>, i: int) -> Option<FormatError> {
    let offset = be_u32(b, record_pos(i) + 8);
    let length = be_u32(b, record_pos(i) + 12);
    if offset > b.len() {
        Some(FormatError::Malformed)
    } else if offset + length > b.len() {
        Some(FormatError::Truncated)
    } else {
        None
    }
}

/// The fault of the first faulty record among the first `n`.
pub open spec fn first_fault(b: Seq<u8>, n: nat) -> Option<FormatError>
    decreases n,
{
    if n == 0 {
        None
    } else {
        match first_fault(b, (n - 1) as nat) {
            Some(e) => Some(e),
            None => record_fault(b, n - 1),
        }
    }
}

/// Whether two of the tables carry the same tag.
pub open spec fn has_duplicate(s: Seq<TableView>) -> bool {
    exists|i: int, j: int| 0 <= i < j < s.len() && s[i].tag == s[j].tag
}

/// The records of the first `n` directory entries.
pub open spec fn records(b: Seq<u8>, n: nat) -> Seq<TableView> {
    Seq::new(n, |i: int| record_at(b, i))
}

/// What parsing `b` gives. The checks come in this order: the header's
/// length, its version tag, the directory's length, each record's extent in
/// directory order, and last the uniqueness of the tags.
#[verifier::opaque]
pub open spec fn parse_outcome(b: Seq<u8>) -> Result<Seq<TableView>, FormatError> {
    if b.len() < 12 {
        Err(FormatError::Truncated)
    } else if !known_magic(be_u32(b, 0)) {
        Err(FormatError::Malformed)
    } else {
        let n = be_u16(b, 4) as nat;
        if b.len() < 12 + 16 * n {
            Err(FormatError::Truncated)
        } else {
            match first_fault(b, n) {
                Some(e) => Err(e),
                None => if has_duplicate(records(b, n)) {
                    Err(FormatError::DuplicateTag)
                } else {
                    Ok(records(b, n))
                },
            }
        }
    }
}

/// The index of the first table with this tag among the first `n`, if any.
pub open spec fn find_first(s: Seq<TableView>, tag: u32, n: nat) -> Option<int>
    decreases n,
{
    if n == 0 {
        None
    } else {
        match find_first(s, tag, (n - 1) as nat) {
            Some(i) => Some(i),
            None => if s[n - 1].tag == tag {
                Some(n - 1)
            } else {
                None
            },
        }
    }
}

/// The data of the first table with this tag, if any.
pub open spec fn table_data(s: Seq<TableView>, tag: u32) -> Option<Seq<u8>> {
    match find_first(s, tag, s.len()) {
        Some(i) => Some(s[i].data),
        None => None,
    }
}

/// `find_first` gives the least index that carries the tag, and none only
/// where no index does.
pub proof fn lemma_find_first(s: Seq<TableView>, tag: u32, n: nat)
    requires
        n <= s.len(),
    ensures
        match find_first(s, tag, n) {
            Some(i) => 0 <= i < n && s[i].tag == tag && forall|k: int|
                0 <= k < i ==> s[k].tag != tag,
            None => forall|k: int| 0 <= k < n ==> s[k].tag != tag,
        },
    decreases n,
{
    if n > 0 {
        lemma_find_first(s, tag, (n - 1) as nat);
    }
}

impl Container {
    /// Number of tables.
    pub fn table_count(&self) -> (r: usize)
        ensures
            r == self@.len(),
    {
        self.entries.len()
    }

    /// Index of the first table with this tag.
    pub fn position(&self, tag: u32) -> (r: Option<usize>)
        ensures
            match r {
                Some(i) => find_first(self@, tag, self@.len()) == Some(i as int) && i
                    < self.entries@.len(),
                None => find_first(self@, tag, self@.len()).is_none(),
            },
    {
        let mut i: usize = 0;
        while i < self.entries.len()
            invariant
                i <= self.entries@.len(),
                find_first(self@, tag, i as nat).is_none(),
            decreases self.entries@.len() - i,
        {
            if self.entries[i].tag == tag {
                proof {
                    lemma_find_stays(self@, tag, (i + 1) as nat, self@.len());
                }
                return Some(i);
            }
            i += 1;
        }
        None
    }

    /// The bytes of the table with this tag; `None` where there is none.
    pub fn get(&self, tag: u32) -> (r: Option<&Vec<u8>>)
        ensures
            match r {
                Some(d) => table_data(self@, tag) == Some(d@),
                None => table_data(self@, tag).is_none(),
            },
    {
        match self.position(tag) {
            Some(i) => Some(&self.entries[i].data),
            None => None,
        }
    }
}

/// Once found among the first `n`, a tag is found at the same place among
/// the first `m >= n`.
pub proof fn lemma_find_stays(s: Seq<TableView>, tag: u32, n: nat, m: nat)
    requires
        n <= m,
        find_first(s, tag, n).is_some(),
    ensures
        find_first(s, tag, m) == find_first(s, tag, n),
    decreases m,
{
    if m > n {
        lemma_find_stays(s, tag, n, (m - 1) as nat);
    }
}

/// A fault found among the first `n` records is the fault found among any
/// longer prefix.
pub proof fn lemma_first_fault_stays(b: Seq<u8>, n: nat, m: nat)
    requires
        n <= m,
    ensures
        first_fault(b, n).is_some() ==> first_fault(b, m) == first_fault(b, n),
    decreases m,
{
    if m > n {
        lemma_first_fault_stays(b, n, (m - 1) as nat);
    }
}

/// Reads the header and the table directory of `bytes` and copies out each
/// table's data.
pub fn parse(bytes: &[u8]) -> (r: Result<Container, FormatError>)
    ensures
        match r {
            Ok(c) => parse_outcome(bytes@) == Ok::<Seq<TableView>, FormatError>(c@) && c.version
                as int == be_u32(bytes@, 0) && 12 + 16 * c@.len() <= bytes@.len() && c@.len() <= 65535,
            Err(e) => parse_outcome(bytes@) == Err::<Seq<TableView>, FormatError>(e),
        },
{
    reveal(parse_outcome);
    if bytes.len() < HEADER_LEN {
        return Err(FormatError::Truncated);
    }
    let version: u32 = read_u32(bytes, 0);
    if !(version == MAGIC_TRUETYPE || version == MAGIC_OPENTYPE || version == MAGIC_APPLE) {
        return Err(FormatError::Malformed);
    }
    let n: usize = read_u16(bytes, 4) as usize;
    if (bytes.len() - HEADER_LEN) / RECORD_LEN < n {
        return Err(FormatError::Truncated);
    }
    let mut entries: Vec<TableEntry> = Vec::new();
    let mut i: usize = 0;
    while i < n
        invariant
            i <= n,
            n <= 65535,
            12 + 16 * n <= bytes@.len(),
            n as int == be_u16(bytes@, 4),
            known_magic(be_u32(bytes@, 0)),
            first_fault(bytes@, i as nat).is_none(),
            entries@.len() == i,
            forall|k: int| 0 <= k < i ==> (#[trigger] entries@[k])@ == record_at(bytes@, k),
        decreases n - i,
    {
        let p: usize = HEADER_LEN + RECORD_LEN * i;
        let tag: u32 = read_u32(bytes, p);
        let checksum: u32 = read_u32(bytes, p + 4);
        let offset: u32 = read_u32(bytes, p + 8);
        let length: u32 = read_u32(bytes, p + 12);
        proof {
            reveal(parse_outcome);
            lemma_first_fault_stays(bytes@, (i + 1) as nat, n as nat);
        }
        if offset as usize > bytes.len() {
            return Err(FormatError::Malformed);
        }
        if length as usize > bytes.len() - offset as usize {
            return Err(FormatError::Truncated);
        }
        let data = copy_range(bytes, offset as usize, offset as usize + length as usize);
        entries.push(TableEntry { tag, checksum, offset, length, data });
        i += 1;
    }
    let c = Container { version, entries };
    assert(c@ =~= records(bytes@, n as nat));
    let mut a: usize = 0;
    while a < n
        invariant
            a <= n,
            c@.len() == n,
            c.entries@.len() == n,
            12 + 16 * n <= bytes@.len(),
            n as int == be_u16(bytes@, 4),
            known_magic(be_u32(bytes@, 0)),
            first_fault(bytes@, n as nat).is_none(),
            c@ == records(bytes@, n as nat),
            forall|x: int, y: int| 0 <= x < y < a ==> c@[x].tag != c@[y].tag,
        decreases n - a,
    {
        let mut k: usize = 0;
        while k < a
            invariant
                k <= a,
                a < n,
                c@.len() == n,
                c.entries@.len() == n,
                12 + 16 * n <= bytes@.len(),
                n as int == be_u16(bytes@, 4),
                known_magic(be_u32(bytes@, 0)),
                first_fault(bytes@, n as nat).is_none(),
                c@ == records(bytes@, n as nat),
                forall|x: int| 0 <= x < k ==> c@[x].tag != c@[a as int].tag,
            decreases a - k,
        {
            if c.entries[k].tag == c.entries[a].tag {
                proof {
                    reveal(parse_outcome);
                }
                assert(c@[k as int].tag == c@[a as int].tag);
                assert(has_duplicate(c@));
                return Err(FormatError::DuplicateTag);
            }
            k += 1;
        }
        a += 1;
    }
    Ok(c)
}

/// No fault among the first `n` records means no fault in any of them.
pub proof fn lemma_no_fault(b: Seq<u8>, n: nat, i: int)
    requires
        0 <= i < n,
        first_fault(b, n).is_none(),
    ensures
        record_fault(b, i).is_none(),
    decreases n,
{
    if i < n - 1 {
        lemma_no_fault(b, (n - 1) as nat, i);
    }
}

/// What holds of every parsed container: its tags are unique, each table
/// lies inside the buffer, and each table's data has its declared length.
pub proof fn lemma_parsed_container(b: Seq<u8>)
    requires
        parse_outcome(b).is_ok(),
    ensures
        !has_duplicate(parse_outcome(b).unwrap()),
        12 + 16 * parse_outcome(b).unwrap().len() <= b.len(),
        forall|i: int|
            0 <= i < parse_outcome(b).unwrap().len() ==> {
                let e = #[trigger] parse_outcome(b).unwrap()[i];
                e.offset + e.length <= b.len() && e.data.len() == e.length
            },
{
    reveal(parse_outcome);
    let n = be_u16(b, 4) as nat;
    let es = parse_outcome(b).unwrap();
    assert(es == records(b, n));
    assert forall|i: int| 0 <= i < es.len() implies {
        let e = #[trigger] es[i];
        e.offset + e.length <= b.len() && e.data.len() == e.length
    } by {
        lemma_no_fault(b, n, i);
    }
}

} // verus!
