//! Rebuilding a container: the original's tables, some of them replaced,
//! assembled into a new byte stream by `write_fonts::FontBuilder` and then
//! checked table by table before they are handed out.

use vstd::prelude::*;
use write_fonts::FontBuilder;
use write_fonts::types::Tag;
use crate::bytes::{be_u32, copy_range, read_u32, same_bytes};
use crate::checksum::{checksum_of, table_checksum, wrapping_sum};
use crate::directory::{parse, parse_outcome, table_data, Container, TableEntry, TableView};

verus! {

/// Why a container could not be rebuilt.
#[derive(Clone, Copy, Debug, PartialEq, Eq, Structural)]
pub enum BuildError {
    /// A replaced table needs a companion that the final set lacks.
    MissingRequiredTable,
    /// The tables do not fit a container, or the assembled bytes do not
    /// carry them.
    EncodeFailure,
}

/// The bytes of one table under its tag.
#[derive(Clone, Debug)]
pub struct TableData {
    pub tag: u32,
    pub data: Vec<u8>,
}

impl View for TableData {
    type V = (u32, Seq<u8>);

    open spec fn view(&self) -> (u32, Seq<u8>) {
        (self.tag, self.data@)
    }
}

/// Tag `head`: the table that holds the checksum adjustment.
pub const TAG_HEAD: u32 = 0x6865_6164;

/// Tag `loca`: the glyph location index.
pub const TAG_LOCA: u32 = 0x6C6F_6361;

/// Tag `glyf`: the glyph outline data.
pub const TAG_GLYF: u32 = 0x676C_7966;

/// The value from which the sum of all checksums is subtracted.
pub const CHECKSUM_MAGIC: u32 = 0xB1B0_AFBA;

/// Most tables that the builder takes: it writes the directory's search
/// range, sixteen times a power of two, into sixteen bits.
pub const MAX_TABLES: usize = 4095;

/// The views of a vector of tables.
pub open spec fn views(v: Seq<TableData>) -> Seq<(u32, Seq<u8>)> {
    Seq::new(v.len(), |i: int| v[i]@)
}

/// The tables of a container as tag and bytes.
pub open spec fn contents(c: Seq<TableView>) -> Seq<(u32, Seq<u8>)> {
    Seq::new(c.len(), |i: int| (c[i].tag, c[i].data))
}

/// Whether some table of `s` carries `tag`.
pub open spec fn has_tag(s: Seq<(u32, Seq<u8>)>, tag: u32) -> bool {
    exists|i: int| 0 <= i < s.len() && (#[trigger] s[i]).0 == tag
}

/// The first `n` tables of `all` without those whose tag came before.
pub open spec fn selection(all: Seq<(u32, Seq<u8>)>, n: nat) -> Seq<(u32, Seq<u8>)>
    decreases n,
{
    if n == 0 {
        Seq::empty()
    } else {
        let s = selection(all, (n - 1) as nat);
        if has_tag(s, all[n - 1].0) {
            s
        } else {
            s.push(all[n - 1])
        }
    }
}

/// The tables that the rebuilt container holds: the replacements, the first
/// of each tag, then the original's tables whose tag is not replaced.
pub open spec fn final_set(original: Seq<TableView>, replacements: Seq<(u32, Seq<u8>)>) -> Seq<
    (u32, Seq<u8>),
> {
    let all = replacements + contents(original);
    selection(all, all.len())
}

/// The tables of `s` as a map from tag to bytes.
pub open spec fn as_map(s: Seq<(u32, Seq<u8>)>) -> Map<u32, Seq<u8>>
    decreases s.len(),
{
    if s.len() == 0 {
        Map::empty()
    } else {
        as_map(s.drop_last()).insert(s.last().0, s.last().1)
    }
}

/// A length rounded up to a multiple of four.
pub open spec fn padded_len(n: int) -> int {
    (n + 3) / 4 * 4
}

/// The size of a container that holds the tables of `s`: the header, one
/// directory record for each table, and each table padded to four bytes.
pub open spec fn volume(s: Seq<(u32, Seq<u8>)>) -> int
    decreases s.len(),
{
    if s.len() == 0 {
        12
    } else {
        volume(s.drop_last()) + 16 + padded_len(s.last().1.len() as int)
    }
}

/// The table that must be present when `tag` is replaced.
pub open spec fn companion(tag: u32) -> Option<u32> {
    if tag == TAG_LOCA {
        Some(TAG_GLYF)
    } else if tag == TAG_GLYF {
        Some(TAG_LOCA)
    } else {
        None
    }
}

/// Whether one of the replacements needs a table that `s` lacks.
pub open spec fn missing_required(replacements: Seq<(u32, Seq<u8>)>, s: Seq<(u32, Seq<u8>)>) -> bool {
    exists|i: int|
        0 <= i < replacements.len() && lacks_companion((#[trigger] replacements[i]).0, s)
}

/// Whether `tag` needs a companion table that `s` does not have.
pub open spec fn lacks_companion(tag: u32, s: Seq<(u32, Seq<u8>)>) -> bool {
    match companion(tag) {
        Some(c) => !has_tag(s, c),
        None => false,
    }
}

/// The bytes of a table as its checksum sees them: in `head` the
/// four bytes of the checksum adjustment count as zero.
pub open spec fn adjustment_cleared(tag: u32, d: Seq<u8>) -> Seq<u8> {
    if tag == TAG_HEAD && d.len() >= 12 {
        d.update(8, 0u8).update(9, 0u8).update(10, 0u8).update(11, 0u8)
    } else {
        d
    }
}

/// Whether `es` holds the table `t` with its bytes, the checksum adjustment
/// aside.
pub open spec fn carried(es: Seq<TableView>, t: (u32, Seq<u8>)) -> bool {
    match table_data(es, t.0) {
        Some(d) => adjustment_cleared(t.0, d) == adjustment_cleared(t.0, t.1),
        None => false,
    }
}

/// Whether the stored checksum of `e` is the checksum of its bytes.
pub open spec fn checksum_holds(e: TableView) -> bool {
    e.checksum as int == checksum_of(adjustment_cleared(e.tag, e.data))
}

/// The sum of the stored checksums of the first `n` tables, modulo 2^32.
pub open spec fn checksum_total(es: Seq<TableView>, n: nat) -> int
    decreases n,
{
    if n == 0 {
        0
    } else {
        wrapping_sum(checksum_total(es, (n - 1) as nat), es[n - 1].checksum as int)
    }
}

/// The checksum adjustment that belongs to a container `out` with the
/// tables `es`: the magic number less the sum of the checksums of the
/// directory and of every table, modulo 2^32.
pub open spec fn expected_adjustment(out: Seq<u8>, es: Seq<TableView>) -> int {
    let directory = checksum_of(out.subrange(0, 12 + 16 * (es.len() as int)));
    (CHECKSUM_MAGIC - wrapping_sum(checksum_total(es, es.len()), directory)) % 0x1_0000_0000
}

/// Whether `head`, where `es` has it with room for the field, holds the
/// checksum adjustment that belongs to `out`.
#[verifier::opaque]
pub open spec fn adjustment_holds(out: Seq<u8>, es: Seq<TableView>) -> bool {
    match table_data(es, TAG_HEAD) {
        Some(d) => d.len() >= 12 ==> be_u32(d, 8) == expected_adjustment(out, es),
        None => true,
    }
}

/// Whether the directory lists its tables by rising tag and every table
/// starts at a multiple of four.
#[verifier::opaque]
pub open spec fn layout_holds(es: Seq<TableView>) -> bool {
    &&& forall|i: int| 0 <= i < es.len() ==> (#[trigger] es[i]).offset % 4 == 0
    &&& forall|i: int| 0 < i < es.len() ==> es[i - 1].tag < (#[trigger] es[i]).tag
}

/// Tag `CFF `: outlines in the compact font format.
pub const TAG_CFF: u32 = 0x4346_4620;

/// Tag `CFF2`: outlines in the second compact font format.
pub const TAG_CFF2: u32 = 0x4346_4632;

/// Whether the version tag of `out` goes with its outlines: `OTTO` where it
/// has a table of compact-format outlines, 0x00010000 where it has none.
#[verifier::opaque]
pub open spec fn version_holds(out: Seq<u8>, es: Seq<TableView>) -> bool {
    be_u32(out, 0) == if table_data(es, TAG_CFF).is_some() || table_data(es, TAG_CFF2).is_some() {
        crate::directory::MAGIC_OPENTYPE
    } else {
        crate::directory::MAGIC_TRUETYPE
    }
}

/// One past the last byte of a table's padded data.
pub open spec fn region_end(e: TableView) -> int {
    e.offset + padded_len(e.length as int)
}

/// Whether the padded data of `e` lies behind a directory of `n` records
/// and inside `out`, and its padding is zero.
pub open spec fn region_ok(out: Seq<u8>, n: int, e: TableView) -> bool {
    &&& 12 + 16 * n <= e.offset
    &&& region_end(e) <= out.len()
    &&& forall|k: int| e.offset + e.length <= k < region_end(e) ==> out[k] == 0
}

/// Whether every table of `es` has its region in `out`.
#[verifier::opaque]
pub open spec fn regions_hold(out: Seq<u8>, es: Seq<TableView>) -> bool {
    forall|i: int| 0 <= i < es.len() ==> region_ok(out, es.len() as int, #[trigger] es[i])
}

/// Whether the padded data of two tables do not overlap.
pub open spec fn apart(a: TableView, b: TableView) -> bool {
    region_end(a) <= b.offset || region_end(b) <= a.offset
}

/// Whether no two tables of `es` overlap.
#[verifier::opaque]
pub open spec fn regions_apart(es: Seq<TableView>) -> bool {
    forall|i: int, j: int| 0 <= i < j < es.len() ==> apart(#[trigger] es[i], #[trigger] es[j])
}

/// Whether `out` is a container of exactly the tables `s`: it parses, has as
/// many tables as `s`, carries each table of `s`, every stored checksum is
/// the checksum of its table, the checksum adjustment is right, the
/// directory is in order, the tables are aligned, `out` is as long as
/// the header, the directory and the padded tables together, which is
/// below 2^32, the version tag goes with the outlines, and the tables lie
/// behind the directory, padded with zeros, none over another.
pub open spec fn acceptable(out: Seq<u8>, s: Seq<(u32, Seq<u8>)>) -> bool {
    match parse_outcome(out) {
        Ok(es) => {
            &&& es.len() == s.len()
            &&& carries_all(es, s)
            &&& checksums_hold(es)
            &&& adjustment_holds(out, es)
            &&& layout_holds(es)
            &&& out.len() == volume(s)
            &&& volume(s) <= u32::MAX
            &&& version_holds(out, es)
            &&& regions_hold(out, es)
            &&& regions_apart(es)
        },
        Err(_) => false,
    }
}

/// What becomes of assembled bytes `out` that are to hold the tables `s`.
pub open spec fn check_outcome(out: Seq<u8>, s: Seq<(u32, Seq<u8>)>) -> Result<Seq<u8>, BuildError> {
    if acceptable(out, s) {
        Ok(out)
    } else {
        Err(BuildError::EncodeFailure)
    }
}

/// What rebuilding gives, `out` being what the builder assembled from the
/// final set.
pub open spec fn rebuild_outcome(
    original: Seq<TableView>,
    replacements: Seq<(u32, Seq<u8>)>,
    out: Seq<u8>,
) -> Result<Seq<u8>, BuildError> {
    let s = final_set(original, replacements);
    if missing_required(replacements, s) {
        Err(BuildError::MissingRequiredTable)
    } else if s.len() > MAX_TABLES || volume(s) > u32::MAX {
        Err(BuildError::EncodeFailure)
    } else {
        check_outcome(out, s)
    }
}

/// Whether an executable result is the outcome `o`.
pub open spec fn result_is(r: Result<Vec<u8>, BuildError>, o: Result<Seq<u8>, BuildError>) -> bool {
    match r {
        Ok(v) => o == Ok::<Seq<u8>, BuildError>(v@),
        Err(e) => o == Err::<Seq<u8>, BuildError>(e),
    }
}

/// `s` with the table `t` behind it, unless `s` has its tag already.
pub open spec fn with_table(s: Seq<(u32, Seq<u8>)>, t: (u32, Seq<u8>)) -> Seq<(u32, Seq<u8>)> {
    if has_tag(s, t.0) {
        s
    } else {
        s.push(t)
    }
}

/// The tags of `as_map(s)` are the tags of `s`, and no more than `s` has
/// tables.
pub proof fn lemma_as_map_dom(s: Seq<(u32, Seq<u8>)>)
    ensures
        as_map(s).dom().finite(),
        as_map(s).dom().len() <= s.len(),
        forall|tag: u32| as_map(s).dom().contains(tag) <==> has_tag(s, tag),
    decreases s.len(),
{
    if s.len() > 0 {
        let p = s.drop_last();
        lemma_as_map_dom(p);
        assert forall|tag: u32| as_map(s).dom().contains(tag) <==> has_tag(s, tag) by {
            if has_tag(s, tag) {
                let i = choose|i: int| 0 <= i < s.len() && (#[trigger] s[i]).0 == tag;
                if i < s.len() - 1 {
                    assert(p[i].0 == tag);
                }
            }
            if has_tag(p, tag) {
                let i = choose|i: int| 0 <= i < p.len() && (#[trigger] p[i]).0 == tag;
                assert(s[i].0 == tag);
            }
            if s.last().0 == tag {
                assert(s[s.len() - 1].0 == tag);
            }
        }
    }
}

/// The builder of `write_fonts`, which collects tables by tag and assembles
/// them into a container.
#[verifier::external_type_specification]
#[verifier::external_body]
pub struct ExFontBuilder<'a>(FontBuilder<'a>);

/// The tables that a builder holds, by tag.
pub uninterp spec fn builder_tables(b: FontBuilder<'static>) -> Map<u32, Seq<u8>>;

/// The size of the container that a builder would assemble: the header,
/// one directory record for each table, and each table padded to four bytes.
pub uninterp spec fn builder_volume(b: FontBuilder<'static>) -> int;

/// The checksums that a builder was handed beside its tables, by tag. It
/// writes such a checksum into the directory in place of one it computes.
pub uninterp spec fn builder_checksums(b: FontBuilder<'static>) -> Map<u32, u32>;

/// The container that the builder assembles from a set of tables when it
/// was handed no checksum and so computes each of them.
pub uninterp spec fn built_font(tables: Map<u32, Seq<u8>>) -> Seq<u8>;

/// No checksum handed over.
pub open spec fn unstored() -> Map<u32, u32> {
    Map::empty()
}

/// `FontBuilder::new`: a builder without tables and without checksums,
/// whose container would hold the twelve bytes of the header alone.
#[verifier::external_body]
fn builder_new() -> (b: FontBuilder<'static>)
    ensures
        builder_tables(b) == as_map(Seq::empty()),
        builder_checksums(b) == unstored(),
        builder_volume(b) == 12,
{
    FontBuilder::new()
}

/// `FontBuilder::contains`: whether the builder holds a table with this tag.
#[verifier::external_body]
fn builder_contains(b: &FontBuilder<'static>, tag: u32) -> (r: bool)
    ensures
        r == builder_tables(*b).dom().contains(tag),
{
    b.contains(Tag::from_be_bytes(tag.to_be_bytes()))
}

/// `FontBuilder::add_raw`, for a tag that the builder does not hold yet: the
/// table is stored under the tag, a checksum handed over for the tag is
/// dropped, and the container grows by a directory record and the table's
/// padded length.
#[verifier::external_body]
fn builder_add(b: &mut FontBuilder<'static>, tag: u32, data: Vec<u8>)
    requires
        !builder_tables(*old(b)).dom().contains(tag),
    ensures
        builder_tables(*final(b)) == builder_tables(*old(b)).insert(tag, data@),
        builder_checksums(*final(b)) == builder_checksums(*old(b)).remove(tag),
        builder_volume(*final(b)) == builder_volume(*old(b)) + 16 + padded_len(data@.len() as int),
{
    b.add_raw(Tag::from_be_bytes(tag.to_be_bytes()), data);
}

/// `FontBuilder::build`, for a builder that was handed no checksum:
/// assembles the tables into a container and leaves the builder empty. The
/// builder then computes every checksum itself, so the result is a function
/// of the tables alone. The builder stops on a directory whose search range
/// does not fit sixteen bits, which it does for fewer than 4096 tables, and
/// it counts offsets in 32 bits: hence the two bounds.
#[verifier::external_body]
fn builder_build(b: &mut FontBuilder<'static>) -> (out: Vec<u8>)
    requires
        builder_checksums(*old(b)) == unstored(),
        builder_tables(*old(b)).dom().finite(),
        builder_tables(*old(b)).dom().len() <= MAX_TABLES,
        builder_volume(*old(b)) <= u32::MAX,
    ensures
        out@ == built_font(builder_tables(*old(b))),
        builder_tables(*final(b)) == as_map(Seq::empty()),
        builder_checksums(*final(b)) == unstored(),
{
    b.build()
}

/// A copy of a table's bytes with the checksum adjustment cleared.
fn cleared(tag: u32, d: &[u8]) -> (r: Vec<u8>)
    ensures
        r@ == adjustment_cleared(tag, d@),
{
    if tag == TAG_HEAD && d.len() >= 12 {
        let mut v = copy_range(d, 0, 8);
        v.push(0);
        v.push(0);
        v.push(0);
        v.push(0);
        let mut rest = copy_range(d, 12, d.len());
        v.append(&mut rest);
        assert(v@ =~= adjustment_cleared(tag, d@));
        v
    } else {
        copy_range(d, 0, d.len())
    }
}

/// Whether every table of `s` is carried by `es`.
#[verifier::opaque]
pub open spec fn carries_all(es: Seq<TableView>, s: Seq<(u32, Seq<u8>)>) -> bool {
    forall|j: int| 0 <= j < s.len() ==> carried(es, #[trigger] s[j])
}

/// Whether every stored checksum of `es` is the checksum of its table.
#[verifier::opaque]
pub open spec fn checksums_hold(es: Seq<TableView>) -> bool {
    forall|i: int| 0 <= i < es.len() ==> checksum_holds(#[trigger] es[i])
}

fn carries(c: &Container, tables: &Vec<TableData>) -> (r: bool)
    ensures
        r == carries_all(c@, views(tables@)),
{
    reveal(carries_all);
    let ghost s = views(tables@);
    let mut j: usize = 0;
    while j < tables.len()
        invariant
            j <= tables@.len(),
            s == views(tables@),
            forall|k: int| 0 <= k < j ==> carried(c@, #[trigger] s[k]),
        decreases tables@.len() - j,
    {
        let t = &tables[j];
        assert(s[j as int] == (t.tag, t.data@));
        match c.get(t.tag) {
            None => {
                assert(!carried(c@, s[j as int]));
                proof {
                    reveal(carries_all);
                }
                return false;
            },
            Some(d) => {
                let mine = cleared(t.tag, d.as_slice());
                let theirs = cleared(t.tag, t.data.as_slice());
                if !same_bytes(mine.as_slice(), theirs.as_slice()) {
                    assert(!carried(c@, s[j as int]));
                    proof {
                        reveal(carries_all);
                    }
                    return false;
                }
            },
        }
        j += 1;
    }
    true
}

fn sum_checksums(c: &Container) -> (r: Option<u32>)
    ensures
        match r {
            Some(total) => checksums_hold(c@) && total as int == checksum_total(c@, c@.len()),
            None => !checksums_hold(c@),
        },
{
    reveal(checksums_hold);
    let mut i: usize = 0;
    let mut total: u64 = 0;
    while i < c.entries.len()
        invariant
            i <= c.entries@.len(),
            c@.len() == c.entries@.len(),
            forall|k: int| 0 <= k < i ==> checksum_holds(#[trigger] c@[k]),
            total as int == checksum_total(c@, i as nat),
            total < 0x1_0000_0000,
        decreases c.entries@.len() - i,
    {
        let e = &c.entries[i];
        assert(c@[i as int] == e@);
        let seen = cleared(e.tag, e.data.as_slice());
        if table_checksum(seen.as_slice()) != e.checksum {
            assert(!checksum_holds(c@[i as int]));
            proof {
                reveal(checksums_hold);
            }
            return None;
        }
        total = (total + e.checksum as u64) % 0x1_0000_0000;
        i += 1;
    }
    Some(total as u32)
}

/// The capped size of a container that holds `tables`.
fn capped_volume(tables: &Vec<TableData>) -> (r: u128)
    ensures
        r as int == capped(volume(views(tables@))),
{
    let ghost s = views(tables@);
    let mut total: u128 = 12;
    let mut i: usize = 0;
    assert(s.subrange(0, 0) =~= Seq::empty());
    while i < tables.len()
        invariant
            i <= tables@.len(),
            s == views(tables@),
            total as int == capped(volume(s.subrange(0, i as int))),
        decreases tables@.len() - i,
    {
        proof {
            lemma_volume_floor(s.subrange(0, i as int));
            assert(s.subrange(0, i + 1).drop_last() =~= s.subrange(0, i as int));
            assert(s.subrange(0, i + 1).last() == s[i as int]);
        }
        if total < SIZE_CAP {
            let grown: u128 = total + 16 + (tables[i].data.len() as u128 + 3) / 4 * 4;
            total = if grown < SIZE_CAP {
                grown
            } else {
                SIZE_CAP
            };
        }
        i += 1;
    }
    assert(s.subrange(0, s.len() as int) =~= s);
    total
}

fn version_right(out: &[u8], c: &Container) -> (r: bool)
    requires
        out@.len() >= 12,
    ensures
        r == version_holds(out@, c@),
{
    reveal(version_holds);
    let compact: bool = c.get(TAG_CFF).is_some() || c.get(TAG_CFF2).is_some();
    let wanted: u32 = if compact {
        crate::directory::MAGIC_OPENTYPE
    } else {
        crate::directory::MAGIC_TRUETYPE
    };
    read_u32(out, 0) == wanted
}

fn region_right(out: &[u8], n: usize, e: &TableEntry) -> (r: bool)
    requires
        n <= 65535,
    ensures
        r == region_ok(out@, n as int, e@),
{
    let start: u64 = e.offset as u64 + e.length as u64;
    let end: u64 = e.offset as u64 + (e.length as u64 + 3) / 4 * 4;
    if (e.offset as u64) < 12 + 16 * (n as u64) || end > out.len() as u64 {
        return false;
    }
    let mut k: usize = start as usize;
    while k < end as usize
        invariant
            start <= k <= end,
            end <= out@.len(),
            start == e@.offset + e@.length,
            end == region_end(e@),
            forall|x: int| start <= x < k ==> out@[x] == 0,
        decreases end - k,
    {
        if out[k] != 0 {
            return false;
        }
        k += 1;
    }
    true
}

fn regions_right(out: &[u8], c: &Container) -> (r: bool)
    requires
        c@.len() <= 65535,
    ensures
        r == regions_hold(out@, c@),
{
    reveal(regions_hold);
    let n: usize = c.entries.len();
    let mut i: usize = 0;
    while i < n
        invariant
            i <= n,
            n == c.entries@.len(),
            n == c@.len(),
            n <= 65535,
            forall|k: int| 0 <= k < i ==> region_ok(out@, n as int, #[trigger] c@[k]),
        decreases n - i,
    {
        assert(c@[i as int] == c.entries@[i as int]@);
        if !region_right(out, n, &c.entries[i]) {
            proof {
                reveal(regions_hold);
            }
            return false;
        }
        i += 1;
    }
    true
}

fn apart_from_earlier(c: &Container, j: usize) -> (r: bool)
    requires
        j < c.entries@.len(),
    ensures
        r == (forall|i: int| 0 <= i < j ==> apart(#[trigger] c@[i], c@[j as int])),
{
    let b = &c.entries[j];
    assert(c@[j as int] == b@);
    let b_end: u64 = b.offset as u64 + (b.length as u64 + 3) / 4 * 4;
    let mut i: usize = 0;
    while i < j
        invariant
            i <= j,
            j < c.entries@.len(),
            c@[j as int] == b@,
            b_end == region_end(b@),
            forall|k: int| 0 <= k < i ==> apart(#[trigger] c@[k], c@[j as int]),
        decreases j - i,
    {
        let a = &c.entries[i];
        assert(c@[i as int] == a@);
        let a_end: u64 = a.offset as u64 + (a.length as u64 + 3) / 4 * 4;
        if !(a_end <= b.offset as u64 || b_end <= a.offset as u64) {
            assert(!apart(c@[i as int], c@[j as int]));
            return false;
        }
        i += 1;
    }
    true
}

fn all_apart(c: &Container) -> (r: bool)
    ensures
        r == regions_apart(c@),
{
    reveal(regions_apart);
    let mut j: usize = 0;
    while j < c.entries.len()
        invariant
            j <= c.entries@.len(),
            c@.len() == c.entries@.len(),
            forall|x: int, y: int| 0 <= x < y < j ==> apart(#[trigger] c@[x], #[trigger] c@[y]),
        decreases c.entries@.len() - j,
    {
        if !apart_from_earlier(c, j) {
            proof {
                reveal(regions_apart);
            }
            return false;
        }
        j += 1;
    }
    true
}

fn laid_out(c: &Container) -> (r: bool)
    ensures
        r == layout_holds(c@),
{
    reveal(layout_holds);
    let mut i: usize = 0;
    while i < c.entries.len()
        invariant
            i <= c.entries@.len(),
            c@.len() == c.entries@.len(),
            forall|k: int| 0 <= k < i ==> (#[trigger] c@[k]).offset % 4 == 0,
            forall|k: int| 0 < k < i ==> c@[k - 1].tag < (#[trigger] c@[k]).tag,
        decreases c.entries@.len() - i,
    {
        assert(c@[i as int] == c.entries@[i as int]@);
        if c.entries[i].offset % 4 != 0 {
            proof {
                reveal(layout_holds);
            }
            return false;
        }
        if i > 0 {
            assert(c@[i as int - 1] == c.entries@[i as int - 1]@);
            if c.entries[i - 1].tag >= c.entries[i].tag {
                proof {
                    reveal(layout_holds);
                }
                return false;
            }
        }
        i += 1;
    }
    true
}

fn adjustment_right(out: &[u8], c: &Container, total: u32) -> (r: bool)
    requires
        12 + 16 * c@.len() <= out@.len(),
        total as int == checksum_total(c@, c@.len()),
    ensures
        r == adjustment_holds(out@, c@),
{
    reveal(adjustment_holds);
    match c.get(TAG_HEAD) {
        Some(d) => {
            if d.len() >= 12 {
                let n: usize = c.table_count();
                let limit: usize = out.len();
                assert(12 + 16 * n <= limit);
                let directory: u32 = table_checksum(copy_range(out, 0, 12 + 16 * n).as_slice());
                let sum: u64 = (total as u64 + directory as u64) % 0x1_0000_0000;
                let expected: u64 = (CHECKSUM_MAGIC as u64 + 0x1_0000_0000 - sum) % 0x1_0000_0000;
                read_u32(d.as_slice(), 8) as u64 == expected
            } else {
                true
            }
        },
        None => true,
    }
}

/// Hands `out` back where it is a container of exactly `tables`, each with
/// its bytes and a right checksum; fails otherwise.
pub fn check_rebuilt(out: Vec<u8>, tables: &Vec<TableData>) -> (r: Result<Vec<u8>, BuildError>)
    ensures
        result_is(r, check_outcome(out@, views(tables@))),
{
    let c = match parse(out.as_slice()) {
        Ok(c) => c,
        Err(_) => {
            return Err(BuildError::EncodeFailure);
        },
    };
    if c.table_count() != tables.len() {
        return Err(BuildError::EncodeFailure);
    }
    if !carries(&c, tables) {
        return Err(BuildError::EncodeFailure);
    }
    let total = match sum_checksums(&c) {
        Some(total) => total,
        None => {
            return Err(BuildError::EncodeFailure);
        },
    };
    if !adjustment_right(out.as_slice(), &c, total) {
        return Err(BuildError::EncodeFailure);
    }
    if !laid_out(&c) {
        return Err(BuildError::EncodeFailure);
    }
    let size: u128 = capped_volume(tables);
    if size > 0xFFFF_FFFF || out.len() as u128 != size {
        return Err(BuildError::EncodeFailure);
    }
    if !version_right(out.as_slice(), &c) {
        return Err(BuildError::EncodeFailure);
    }
    if !regions_right(out.as_slice(), &c) {
        return Err(BuildError::EncodeFailure);
    }
    if !all_apart(&c) {
        return Err(BuildError::EncodeFailure);
    }
    Ok(out)
}

/// The running size of a container, held at `SIZE_CAP` once it is beyond.
pub const SIZE_CAP: u128 = 0x2_0000_0000;

/// The size `v`, or `SIZE_CAP` where `v` is not below it.
pub open spec fn capped(v: int) -> int {
    if v < SIZE_CAP {
        v
    } else {
        SIZE_CAP as int
    }
}

/// Whether the builder holds exactly the tables `chosen` and no checksum,
/// and `total` is their capped volume.
pub open spec fn in_step(b: FontBuilder<'static>, chosen: Seq<TableData>, total: u128) -> bool {
    &&& builder_tables(b) == as_map(views(chosen))
    &&& builder_checksums(b) == unstored()
    &&& builder_volume(b) == volume(views(chosen))
    &&& total as int == capped(volume(views(chosen)))
}

/// Adds one table to the builder unless its tag is there already.
fn add_table(
    b: &mut FontBuilder<'static>,
    chosen: &mut Vec<TableData>,
    total: &mut u128,
    tag: u32,
    data: &[u8],
)
    requires
        in_step(*old(b), old(chosen)@, *old(total)),
    ensures
        in_step(*final(b), final(chosen)@, *final(total)),
        views(final(chosen)@) == with_table(views(old(chosen)@), (tag, data@)),
{
    let ghost before = views(chosen@);
    proof {
        lemma_as_map_dom(before);
    }
    if !builder_contains(b, tag) {
        assert(data@.subrange(0, data@.len() as int) =~= data@);
        builder_add(b, tag, copy_range(data, 0, data.len()));
        assert(unstored().remove(tag) =~= unstored());
        chosen.push(TableData { tag, data: copy_range(data, 0, data.len()) });
        assert(views(chosen@) =~= before.push((tag, data@)));
        assert(views(chosen@).drop_last() =~= before);
        if *total < SIZE_CAP {
            let grown: u128 = *total + 16 + (data.len() as u128 + 3) / 4 * 4;
            *total = if grown < SIZE_CAP {
                grown
            } else {
                SIZE_CAP
            };
        }
        proof {
            lemma_volume_floor(before);
        }
    }
}

/// A container is never smaller than its header.
pub proof fn lemma_volume_floor(s: Seq<(u32, Seq<u8>)>)
    ensures
        volume(s) >= 12,
    decreases s.len(),
{
    if s.len() > 0 {
        lemma_volume_floor(s.drop_last());
    }
}

/// Rebuilds a container from `original` with the tables of `replacements`
/// in place of those of the same tag, or beside them where the tag is new.
/// Of two replacements with one tag the first counts.
pub fn rebuild(original: &Container, replacements: &Vec<TableData>) -> (r: Result<
    Vec<u8>,
    BuildError,
>)
    ensures
        result_is(
            r,
            rebuild_outcome(
                original@,
                views(replacements@),
                built_font(as_map(final_set(original@, views(replacements@)))),
            ),
        ),
{
    let ghost repl = views(replacements@);
    let ghost all = repl + contents(original@);
    let mut b = builder_new();
    let mut chosen: Vec<TableData> = Vec::new();
    let mut total: u128 = 12;
    assert(views(chosen@) =~= selection(all, 0));
    let mut i: usize = 0;
    while i < replacements.len()
        invariant
            i <= replacements@.len(),
            repl == views(replacements@),
            all == repl + contents(original@),
            in_step(b, chosen@, total),
            views(chosen@) == selection(all, i as nat),
        decreases replacements@.len() - i,
    {
        let t = &replacements[i];
        assert(all[i as int] == (t.tag, t.data@));
        add_table(&mut b, &mut chosen, &mut total, t.tag, t.data.as_slice());
        i += 1;
    }
    let m: usize = replacements.len();
    let mut k: usize = 0;
    while k < original.entries.len()
        invariant
            k <= original.entries@.len(),
            m == replacements@.len(),
            repl == views(replacements@),
            all == repl + contents(original@),
            in_step(b, chosen@, total),
            views(chosen@) == selection(all, (m + k) as nat),
        decreases original.entries@.len() - k,
    {
        let e = &original.entries[k];
        assert(all[m + k] == (e.tag, e.data@));
        add_table(&mut b, &mut chosen, &mut total, e.tag, e.data.as_slice());
        k += 1;
    }
    let ghost s = views(chosen@);
    assert(all.len() == m + original.entries@.len());
    assert(s == final_set(original@, repl));
    proof {
        lemma_as_map_dom(s);
    }
    let mut q: usize = 0;
    while q < replacements.len()
        invariant
            q <= replacements@.len(),
            repl == views(replacements@),
            s == views(chosen@),
            s == final_set(original@, repl),
            in_step(b, chosen@, total),
            forall|tag: u32| as_map(s).dom().contains(tag) <==> has_tag(s, tag),
            forall|x: int| 0 <= x < q ==> !lacks_companion((#[trigger] repl[x]).0, s),
        decreases replacements@.len() - q,
    {
        let tag: u32 = replacements[q].tag;
        assert(repl[q as int].0 == tag);
        if tag == TAG_LOCA || tag == TAG_GLYF {
            let other: u32 = if tag == TAG_LOCA {
                TAG_GLYF
            } else {
                TAG_LOCA
            };
            if !builder_contains(&b, other) {
                assert(lacks_companion(repl[q as int].0, s));
                return Err(BuildError::MissingRequiredTable);
            }
        }
        q += 1;
    }
    if chosen.len() > MAX_TABLES || total > 0xFFFF_FFFF {
        return Err(BuildError::EncodeFailure);
    }
    let out = builder_build(&mut b);
    check_rebuilt(out, &chosen)
}

/// A tag that the selection of the first `n` tables has is the tag of one
/// of those tables.
pub proof fn lemma_selection_tags(all: Seq<(u32, Seq<u8>)>, n: nat, tag: u32)
    requires
        n <= all.len(),
        has_tag(selection(all, n), tag),
    ensures
        exists|m: int| 0 <= m < n && (#[trigger] all[m]).0 == tag,
    decreases n,
{
    if n > 0 {
        let s = selection(all, (n - 1) as nat);
        if has_tag(s, tag) {
            lemma_selection_tags(all, (n - 1) as nat, tag);
        } else {
            let i = choose|i: int| 0 <= i < selection(all, n).len() && (#[trigger] selection(all, n)[i]).0 == tag;
            if i < s.len() {
                assert(s[i].0 == tag);
            }
            assert(all[n - 1].0 == tag);
        }
    } else {
        let i = choose|i: int| 0 <= i < selection(all, n).len() && (#[trigger] selection(all, n)[i]).0 == tag;
    }
}

/// The selection is made of tables of `all`, and it keeps the first table
/// of each tag: a table before which no table has its tag stays.
pub proof fn lemma_selection_keeps(all: Seq<(u32, Seq<u8>)>, n: nat, k: int)
    requires
        0 <= k < n <= all.len(),
        forall|m: int| 0 <= m < k ==> (#[trigger] all[m]).0 != all[k].0,
    ensures
        exists|j: int| 0 <= j < selection(all, n).len() && #[trigger] selection(all, n)[j] == all[k],
    decreases n,
{
    let s = selection(all, (n - 1) as nat);
    if k == n - 1 {
        if has_tag(s, all[k].0) {
            lemma_selection_tags(all, (n - 1) as nat, all[k].0);
        }
        assert(selection(all, n)[s.len() as int] == all[k]);
    } else {
        lemma_selection_keeps(all, (n - 1) as nat, k);
        let j = choose|j: int| 0 <= j < s.len() && #[trigger] s[j] == all[k];
        assert(selection(all, n)[j] == all[k]);
    }
}

/// Where no two tables share a tag, the selection drops none.
pub proof fn lemma_selection_of_distinct(all: Seq<(u32, Seq<u8>)>, n: nat)
    requires
        n <= all.len(),
        forall|a: int, b: int| 0 <= a < b < all.len() ==> (#[trigger] all[a]).0 != (#[trigger] all[b]).0,
    ensures
        selection(all, n) == all.subrange(0, n as int),
    decreases n,
{
    if n > 0 {
        lemma_selection_of_distinct(all, (n - 1) as nat);
        let s = selection(all, (n - 1) as nat);
        if has_tag(s, all[n - 1].0) {
            lemma_selection_tags(all, (n - 1) as nat, all[n - 1].0);
        }
        assert(selection(all, n) =~= all.subrange(0, n as int));
    } else {
        assert(selection(all, n) =~= all.subrange(0, n as int));
    }
}

/// The stored checksum of the first table with this tag, if any.
pub open spec fn stored_checksum(es: Seq<TableView>, tag: u32) -> Option<u32> {
    match crate::directory::find_first(es, tag, es.len()) {
        Some(i) => Some(es[i].checksum),
        None => None,
    }
}

/// In every rebuilt container each table's stored checksum is the checksum
/// of its bytes, and the checksum adjustment is the magic number less the
/// sum of all checksums.
pub proof fn lemma_rebuilt_checksums(
    original: Seq<TableView>,
    replacements: Seq<(u32, Seq<u8>)>,
    out: Seq<u8>,
)
    requires
        rebuild_outcome(original, replacements, out) == Ok::<Seq<u8>, BuildError>(out),
    ensures
        parse_outcome(out).is_ok(),
        forall|i: int|
            0 <= i < parse_outcome(out).unwrap().len() ==> checksum_holds(
                #[trigger] parse_outcome(out).unwrap()[i],
            ),
        adjustment_holds(out, parse_outcome(out).unwrap()),
        layout_holds(parse_outcome(out).unwrap()),
{
    reveal(checksums_hold);
}

/// In every rebuilt container the tables lie behind the directory, each
/// padded with zeros to a multiple of four, none over another, and the
/// container is as long as its parts together.
pub proof fn lemma_rebuilt_layout(original: Seq<TableView>, replacements: Seq<(u32, Seq<u8>)>, out: Seq<u8>)
    requires
        rebuild_outcome(original, replacements, out) == Ok::<Seq<u8>, BuildError>(out),
    ensures
        parse_outcome(out).is_ok(),
        regions_hold(out, parse_outcome(out).unwrap()),
        regions_apart(parse_outcome(out).unwrap()),
        out.len() == volume(final_set(original, replacements)),
{
}

/// A rebuilt container carries every table of the original whose tag is
/// not replaced, byte for byte (in `head`, but for the checksum
/// adjustment), and every replacement that is the first of its tag.
pub proof fn lemma_rebuilt_tables(
    original: Seq<TableView>,
    replacements: Seq<(u32, Seq<u8>)>,
    out: Seq<u8>,
)
    requires
        !crate::directory::has_duplicate(original),
        rebuild_outcome(original, replacements, out) == Ok::<Seq<u8>, BuildError>(out),
    ensures
        parse_outcome(out).is_ok(),
        forall|i: int|
            0 <= i < original.len() && !has_tag(replacements, original[i].tag) ==> carried(
                parse_outcome(out).unwrap(),
                #[trigger] contents(original)[i],
            ),
        forall|i: int|
            0 <= i < replacements.len() && (forall|m: int|
                0 <= m < i ==> (#[trigger] replacements[m]).0 != replacements[i].0) ==> carried(
                parse_outcome(out).unwrap(),
                #[trigger] replacements[i],
            ),
{
    reveal(carries_all);
    let es = parse_outcome(out).unwrap();
    let all = replacements + contents(original);
    let s = final_set(original, replacements);
    let r = replacements.len() as int;
    assert forall|i: int|
        0 <= i < original.len() && !has_tag(replacements, original[i].tag) implies carried(
        es,
        #[trigger] contents(original)[i],
    ) by {
        let k = r + i;
        assert(all[k] == contents(original)[i]);
        assert forall|m: int| 0 <= m < k implies (#[trigger] all[m]).0 != all[k].0 by {
            if m < r {
                assert(all[m] == replacements[m]);
            } else {
                assert(all[m] == contents(original)[m - r]);
                assert(original[m - r].tag != original[i].tag);
            }
        }
        lemma_selection_keeps(all, all.len(), k);
        let j = choose|j: int| 0 <= j < s.len() && #[trigger] s[j] == all[k];
        assert(carried(es, s[j]));
    }
    assert forall|i: int|
        0 <= i < replacements.len() && (forall|m: int|
            0 <= m < i ==> (#[trigger] replacements[m]).0 != replacements[i].0) implies carried(
        es,
        #[trigger] replacements[i],
    ) by {
        assert(all[i] == replacements[i]);
        assert forall|m: int| 0 <= m < i implies (#[trigger] all[m]).0 != all[i].0 by {
            assert(all[m] == replacements[m]);
        }
        lemma_selection_keeps(all, all.len(), i);
        let j = choose|j: int| 0 <= j < s.len() && #[trigger] s[j] == all[i];
        assert(carried(es, s[j]));
    }
}

/// Rebuilding without replacements keeps the number of tables and the
/// bytes of each, and a table whose stored checksum was right has the same
/// checksum afterwards.
pub proof fn lemma_round_trip(original: Seq<TableView>, out: Seq<u8>)
    requires
        !crate::directory::has_duplicate(original),
        rebuild_outcome(original, Seq::empty(), out) == Ok::<Seq<u8>, BuildError>(out),
    ensures
        parse_outcome(out).is_ok(),
        parse_outcome(out).unwrap().len() == original.len(),
        forall|i: int|
            0 <= i < original.len() ==> carried(parse_outcome(out).unwrap(), #[trigger] contents(original)[i]),
        forall|i: int|
            0 <= i < original.len() && checksum_holds(#[trigger] original[i]) ==> stored_checksum(
                parse_outcome(out).unwrap(),
                original[i].tag,
            ) == Some(original[i].checksum),
{
    reveal(checksums_hold);
    let none = Seq::<(u32, Seq<u8>)>::empty();
    let es = parse_outcome(out).unwrap();
    let all = none + contents(original);
    assert(all =~= contents(original));
    lemma_selection_of_distinct(all, all.len());
    assert(all.subrange(0, all.len() as int) =~= all);
    lemma_rebuilt_tables(original, none, out);
    assert forall|i: int| 0 <= i < original.len() implies carried(es, #[trigger] contents(original)[i]) by {
        assert(!has_tag(none, original[i].tag));
    }
    assert forall|i: int| 0 <= i < original.len() && checksum_holds(#[trigger] original[i]) implies stored_checksum(
        es,
        original[i].tag,
    ) == Some(original[i].checksum) by {
        assert(carried(es, contents(original)[i]));
        crate::directory::lemma_find_first(es, original[i].tag, es.len());
        let j = crate::directory::find_first(es, original[i].tag, es.len()).unwrap();
        assert(checksum_holds(es[j]));
    }
}

} // verus!
