//! Changing one field of the metrics table and rebuilding the container
//! around it.

use vstd::prelude::*;
use crate::bytes::{u16_bytes, be_u16};
use crate::codec::{lemma_weight_class_only, metrics_valid, Metrics};
use crate::directory::{parse_outcome, table_data, Container, FormatError, TableView};
use crate::rebuild::{
    as_map, built_font, carried, contents, final_set, has_tag, lemma_rebuilt_tables, lemma_selection_keeps,
    lemma_selection_tags, rebuild, rebuild_outcome, selection, views,
    BuildError, TableData,
};

verus! {

/// Tag `OS/2`: the metrics and classification table.
pub const TAG_METRICS: u32 = 0x4F53_2F32;

/// Why a container could not be patched.
#[derive(Clone, Copy, Debug, PartialEq, Eq, Structural)]
pub enum PatchError {
    /// The container has no metrics table.
    MissingTable,
    /// The metrics table is not of its layout.
    Format(FormatError),
    /// The container could not be rebuilt.
    Build(BuildError),
}

/// The bytes `d` of a metrics table with the weight class `w` in place of
/// its own.
pub open spec fn with_weight(d: Seq<u8>, w: u16) -> Seq<u8> {
    d.subrange(0, 4) + u16_bytes(w) + d.subrange(6, d.len() as int)
}

/// The one replacement that a change of the weight class makes.
pub open spec fn weight_replacement(d: Seq<u8>, w: u16) -> Seq<(u32, Seq<u8>)> {
    seq![(TAG_METRICS, with_weight(d, w))]
}

/// What patching gives for the container `original`, `out` being what the
/// builder assembled.
pub open spec fn patch_outcome(original: Seq<TableView>, w: u16, out: Seq<u8>) -> Result<Seq<u8>, PatchError> {
    match table_data(original, TAG_METRICS) {
        None => Err(PatchError::MissingTable),
        Some(d) => if !metrics_valid(d) {
            Err(PatchError::Format(FormatError::Malformed))
        } else {
            match rebuild_outcome(original, weight_replacement(d, w), out) {
                Ok(v) => Ok(v),
                Err(e) => Err(PatchError::Build(e)),
            }
        },
    }
}

/// The tables that the builder is given for this patch.
pub open spec fn patch_tables(original: Seq<TableView>, w: u16) -> Map<u32, Seq<u8>> {
    match table_data(original, TAG_METRICS) {
        None => Map::empty(),
        Some(d) => as_map(final_set(original, weight_replacement(d, w))),
    }
}

/// Whether an executable result is the outcome `o`.
pub open spec fn patched_is(r: Result<Vec<u8>, PatchError>, o: Result<Seq<u8>, PatchError>) -> bool {
    match r {
        Ok(v) => o == Ok::<Seq<u8>, PatchError>(v@),
        Err(e) => o == Err::<Seq<u8>, PatchError>(e),
    }
}

/// Rebuilds `original` with the weight class of its metrics table set to
/// `weight` and every other byte of every table as it was.
pub fn patch_weight_class(original: &Container, weight: u16) -> (r: Result<Vec<u8>, PatchError>)
    ensures
        patched_is(r, patch_outcome(original@, weight, built_font(patch_tables(original@, weight)))),
{
    let d = match original.get(TAG_METRICS) {
        Some(d) => d,
        None => {
            return Err(PatchError::MissingTable);
        },
    };
    let m = match Metrics::decode(d.as_slice()) {
        Ok(m) => m,
        Err(e) => {
            return Err(PatchError::Format(e));
        },
    };
    let ghost before = m;
    let changed = m.with_weight_class(weight);
    let bytes = changed.encode();
    proof {
        lemma_weight_class_only(before, changed, d@, weight);
        assert(be_u16(bytes@, 4) == weight);
        assert(bytes@ =~= with_weight(d@, weight));
    }
    let mut replacements: Vec<TableData> = Vec::new();
    replacements.push(TableData { tag: TAG_METRICS, data: bytes });
    assert(views(replacements@) =~= weight_replacement(d@, weight));
    match rebuild(original, &replacements) {
        Ok(v) => Ok(v),
        Err(e) => Err(PatchError::Build(e)),
    }
}

/// A patched container carries every table of the original but the metrics
/// table byte for byte (in `head`, but for the checksum adjustment), and its
/// metrics table is the original's with the two bytes of the weight class
/// changed.
pub proof fn lemma_patch_changes_one_field(original: Seq<TableView>, w: u16, out: Seq<u8>)
    requires
        !crate::directory::has_duplicate(original),
        patch_outcome(original, w, out) == Ok::<Seq<u8>, PatchError>(out),
    ensures
        parse_outcome(out).is_ok(),
        table_data(original, TAG_METRICS).is_some(),
        table_data(parse_outcome(out).unwrap(), TAG_METRICS) == Some(
            with_weight(table_data(original, TAG_METRICS).unwrap(), w),
        ),
        be_u16(with_weight(table_data(original, TAG_METRICS).unwrap(), w), 4) == w,
        forall|i: int|
            0 <= i < original.len() && original[i].tag != TAG_METRICS ==> carried(
                parse_outcome(out).unwrap(),
                #[trigger] contents(original)[i],
            ),
{
    let d = table_data(original, TAG_METRICS).unwrap();
    let repl = weight_replacement(d, w);
    assert(rebuild_outcome(original, repl, out) == Ok::<Seq<u8>, BuildError>(out));
    lemma_rebuilt_tables(original, repl, out);
    let es = parse_outcome(out).unwrap();
    assert(carried(es, repl[0]));
    assert forall|i: int| 0 <= i < original.len() && original[i].tag != TAG_METRICS implies carried(
        es,
        #[trigger] contents(original)[i],
    ) by {
        if has_tag(repl, original[i].tag) {
            let j = choose|j: int| 0 <= j < repl.len() && (#[trigger] repl[j]).0 == original[i].tag;
        }
    }
    let p = with_weight(d, w);
    assert(p[4] == u16_bytes(w)[0] && p[5] == u16_bytes(w)[1]);
}

/// Whether one of the first `k` tables carries the tag of the metrics table.
pub open spec fn metrics_among(original: Seq<TableView>, k: int) -> bool {
    exists|i: int| 0 <= i < k && (#[trigger] original[i]).tag == TAG_METRICS
}

/// The selection of one replacement of the metrics table and the first `k`
/// tables of a container without duplicates has one table for the
/// replacement and one for each of the `k` but the metrics table.
pub proof fn lemma_patch_selection_len(original: Seq<TableView>, d: Seq<u8>, k: nat)
    requires
        !crate::directory::has_duplicate(original),
        k <= original.len(),
    ensures
        selection(seq![(TAG_METRICS, d)] + contents(original), 1 + k).len() == 1 + k - (if metrics_among(
            original,
            k as int,
        ) {
            1int
        } else {
            0int
        }),
    decreases k,
{
    let all = seq![(TAG_METRICS, d)] + contents(original);
    if k == 0 {
        assert(selection(all, 0).len() == 0);
        assert(!has_tag(selection(all, 0), all[0].0));
    } else {
        lemma_patch_selection_len(original, d, (k - 1) as nat);
        let before = selection(all, k);
        let t = all[k as int].0;
        assert(all[k as int] == contents(original)[k - 1]);
        assert(t == original[k - 1].tag);
        if t == TAG_METRICS {
            lemma_selection_keeps(all, k, 0);
            let j = choose|j: int| 0 <= j < before.len() && #[trigger] before[j] == all[0];
            assert(before[j].0 == t);
            assert(metrics_among(original, k as int));
            if metrics_among(original, k - 1) {
                let i = choose|i: int| 0 <= i < k - 1 && (#[trigger] original[i]).tag == TAG_METRICS;
                assert(original[i].tag == original[k - 1].tag);
            }
        } else {
            if has_tag(before, t) {
                lemma_selection_tags(all, k, t);
                let m = choose|m: int| 0 <= m < k && (#[trigger] all[m]).0 == t;
                assert(m >= 1);
                assert(all[m] == contents(original)[m - 1]);
                assert(original[m - 1].tag == original[k - 1].tag);
            }
            if metrics_among(original, k as int) {
                let i = choose|i: int| 0 <= i < k && (#[trigger] original[i]).tag == TAG_METRICS;
                assert(metrics_among(original, k - 1));
            }
            if metrics_among(original, k - 1) {
                let i = choose|i: int| 0 <= i < k - 1 && (#[trigger] original[i]).tag == TAG_METRICS;
                assert(metrics_among(original, k as int));
            }
        }
    }
}

/// A patched container has as many tables as the one it was made from.
pub proof fn lemma_patch_keeps_count(original: Seq<TableView>, w: u16, out: Seq<u8>)
    requires
        !crate::directory::has_duplicate(original),
        patch_outcome(original, w, out) == Ok::<Seq<u8>, PatchError>(out),
    ensures
        parse_outcome(out).is_ok(),
        parse_outcome(out).unwrap().len() == original.len(),
{
    let d = table_data(original, TAG_METRICS).unwrap();
    let repl = weight_replacement(d, w);
    assert(rebuild_outcome(original, repl, out) == Ok::<Seq<u8>, BuildError>(out));
    crate::directory::lemma_find_first(original, TAG_METRICS, original.len());
    let i = crate::directory::find_first(original, TAG_METRICS, original.len()).unwrap();
    assert(original[i].tag == TAG_METRICS);
    assert(metrics_among(original, original.len() as int));
    lemma_patch_selection_len(original, with_weight(d, w), original.len());
    assert(repl =~= seq![(TAG_METRICS, with_weight(d, w))]);
}

} // verus!
