//! Catalog lookup: the store-path model, the read-only catalog of valid
//! paths and dependency edges, and the range-query resolution of a
//! truncated hash into a full path record.

use vstd::prelude::*;
use vstd::string::*;

use crate::base32::nar_hash_to_base32;
use crate::base32::spec_base32_encode;
use crate::base32::spec_hex_bytes;
use crate::base32::spec_hex_valid;
use crate::base32::spec_sha256_tag;
use crate::strutil::lemma_lex_le_reflexive;
use crate::strutil::lemma_lex_le_total;
use crate::strutil::lemma_lex_le_transitive;
use crate::strutil::lemma_lex_total_ordering;
use crate::strutil::lemma_prefix_lex_le;
use crate::strutil::lemma_sorts_past_all_extensions;
use crate::strutil::lex_le;
use crate::strutil::lex_leq;
use crate::strutil::starts_with;
use crate::strutil::str_lex_le;
use crate::strutil::str_starts_with;
use crate::{spec_store_dir, store_dir_str};
use vstd::relations::sorted_by;

verus! {

/// A catalog read that cannot be served: a row whose digest the codec
/// rejects.
#[derive(Debug)]
pub struct StorageError;

/// A store artifact identifier, kept in its store-root-relative form.
pub struct StorePath(String);

impl StorePath {
    /// The store-root-relative path segment.
    pub closed spec fn rel(&self) -> Seq<char> {
        self.0@
    }

    /// What construction keeps of `path`: the known store root is
    /// stripped when present; anything else is taken as already
    /// relative.
    pub open spec fn spec_new(path: Seq<char>) -> Seq<char> {
        if starts_with(path, spec_store_dir()) {
            path.skip(spec_store_dir().len() as int)
        } else {
            path
        }
    }

    pub fn new(path: &str) -> (r: Self)
        ensures
            r.rel() == Self::spec_new(path@),
    {
        if str_starts_with(path, store_dir_str()) {
            let rest = path.substring_char(11, path.unicode_len());
            proof {
                assert(rest@ =~= path@.skip(11));
            }
            StorePath(rest.to_owned())
        } else {
            StorePath(path.to_owned())
        }
    }

    pub fn without_prefix(&self) -> (r: String)
        ensures
            r@ == self.rel(),
    {
        self.0.clone()
    }

    pub fn with_prefix(&self) -> (r: String)
        ensures
            r@ == spec_store_dir() + self.rel(),
    {
        let mut s = store_dir_str().to_owned();
        s.append(self.0.as_str());
        s
    }
}

/// One row of the catalog's valid-path table.
pub struct PathRow {
    /// The internal numeric identifier, used only to join dependency
    /// edges; never exposed.
    pub id: u64,
    /// The path text as stored, normally store-root-prefixed.
    pub path: String,
    /// The content digest as stored: a tagged hexadecimal string.
    pub hash: String,
    /// The artifact's uncompressed size in bytes.
    pub nar_size: u64,
    /// The path of the derivation that built the artifact, if recorded.
    pub deriver: Option<String>,
}

/// One dependency edge: the row with id `referrer` depends on the row
/// with id `reference`.
pub struct RefEdge {
    pub referrer: u64,
    pub reference: u64,
}

/// The embedded read-only catalog.
pub struct Catalog {
    pub rows: Vec<PathRow>,
    pub refs: Vec<RefEdge>,
}

/// One row resolved from the catalog.
pub struct PathInfo {
    /// The row's internal identifier: used only to join dependency
    /// edges, never serialized.
    pub id: u64,
    pub path: StorePath,
    pub nar_hash: String,
    pub nar_size: u64,
    pub deriver: Option<StorePath>,
}

/// The full path a request for `hash` asks for.
pub open spec fn spec_wanted(hash: Seq<char>) -> Seq<char> {
    spec_store_dir() + hash
}

/// A row's path in its normalized, store-root-prefixed form.
pub open spec fn row_full_path(row: PathRow) -> Seq<char> {
    spec_store_dir() + StorePath::spec_new(row.path@)
}

/// Whether a row answers the request: its normalized path begins with
/// the wanted text.
pub open spec fn row_matches(row: PathRow, wanted: Seq<char>) -> bool {
    starts_with(row_full_path(row), wanted)
}

/// The row the range query settles on within the first `n` rows: the
/// earliest row whose stored path is smallest among those at or after
/// `wanted` in lexicographic order, one row at most.
pub open spec fn spec_range_query_prefix(rows: Seq<PathRow>, wanted: Seq<char>, n: int) -> Option<
    int,
>
    decreases n,
{
    if n <= 0 {
        None
    } else {
        let cur = rows[n - 1].path@;
        match spec_range_query_prefix(rows, wanted, n - 1) {
            Some(b) => if lex_le(wanted, cur) && !lex_le(rows[b].path@, cur) {
                Some(n - 1)
            } else {
                Some(b)
            },
            None => if lex_le(wanted, cur) {
                Some(n - 1)
            } else {
                None
            },
        }
    }
}

/// The row the range query settles on over the whole catalog.
pub open spec fn spec_range_query(rows: Seq<PathRow>, wanted: Seq<char>) -> Option<int> {
    spec_range_query_prefix(rows, wanted, rows.len() as int)
}

/// The row the resolution returns: the range query's row, kept only
/// when its normalized path really begins with the wanted text.
pub open spec fn spec_resolved(rows: Seq<PathRow>, hash: Seq<char>) -> Option<int> {
    let w = spec_wanted(hash);
    match spec_range_query(rows, w) {
        Some(b) => if row_matches(rows[b], w) {
            Some(b)
        } else {
            None
        },
        None => None,
    }
}

/// A stored digest the codec accepts: long enough to carry its tag,
/// within the machine's reach, its payload valid hexadecimal.
pub open spec fn digest_ok(h: Seq<char>) -> bool {
    7 <= h.len() <= 0x1000_0000 && spec_hex_valid(h.skip(7))
}

/// What a resolved record holds of its row.
pub open spec fn spec_info_of(row: PathRow, info: PathInfo) -> bool {
    &&& info.id == row.id
    &&& info.path.rel() == StorePath::spec_new(row.path@)
    &&& info.nar_hash@ == spec_sha256_tag() + spec_base32_encode(spec_hex_bytes(row.hash@.skip(7)))
    &&& info.nar_size == row.nar_size
    &&& match row.deriver {
        Some(d) => info.deriver matches Some(sp) && sp.rel() == StorePath::spec_new(d@),
        None => info.deriver is None,
    }
}

/// Resolves a truncated hash: a range query for the smallest stored
/// path at or after the wanted text, kept only when it really begins
/// with that text; a match whose digest the codec rejects is a catalog
/// integrity fault.
pub fn get_path_info(catalog: &Catalog, hash: &str) -> (r: Result<Option<PathInfo>, StorageError>)
    ensures
        ({
            let ch = spec_resolved(catalog.rows@, hash@);
            &&& ((r matches Ok(o) && o is None) <==> ch is None)
            &&& (r matches Ok(o) ==> (o matches Some(info) ==> (ch matches Some(b) && spec_info_of(
                catalog.rows@[b],
                info,
            ) && digest_ok(catalog.rows@[b].hash@))))
            &&& (r is Err <==> (ch matches Some(b) && !digest_ok(catalog.rows@[b].hash@)))
        }),
{
    let mut wanted = store_dir_str().to_owned();
    wanted.append(hash);
    let ghost w = spec_wanted(hash@);
    let rows_len = catalog.rows.len();
    let mut best: Option<usize> = None;
    let mut i: usize = 0;
    while i < rows_len
        invariant
            i <= rows_len,
            rows_len == catalog.rows@.len(),
            wanted@ == w,
            w == spec_wanted(hash@),
            best is None ==> spec_range_query_prefix(catalog.rows@, w, i as int) is None,
            best matches Some(b) ==> b < i && spec_range_query_prefix(catalog.rows@, w, i as int)
                == Some(b as int),
        decreases rows_len - i,
    {
        let cur_ge = str_lex_le(wanted.as_str(), catalog.rows[i].path.as_str());
        let take_it = cur_ge && match best {
            None => true,
            Some(b) => !str_lex_le(catalog.rows[b].path.as_str(), catalog.rows[i].path.as_str()),
        };
        if take_it {
            best = Some(i);
        }
        i = i + 1;
    }
    let b = match best {
        None => {
            return Ok(None);
        },
        Some(b) => b,
    };
    let sp = StorePath::new(catalog.rows[b].path.as_str());
    let full = sp.with_prefix();
    if !str_starts_with(full.as_str(), wanted.as_str()) {
        return Ok(None);
    }
    let row_hash = &catalog.rows[b].hash;
    if row_hash.as_str().unicode_len() > 0x1000_0000 {
        return Err(StorageError);
    }
    let nar_hash = match nar_hash_to_base32(row_hash.as_str()) {
        Ok(t) => t,
        Err(_) => {
            return Err(StorageError);
        },
    };
    let deriver = match &catalog.rows[b].deriver {
        Some(d) => Some(StorePath::new(d.as_str())),
        None => None,
    };
    Ok(
        Some(
            PathInfo {
                id: catalog.rows[b].id,
                path: sp,
                nar_hash,
                nar_size: catalog.rows[b].nar_size,
                deriver,
            },
        ),
    )
}


/// What the range query returns: nothing when no stored path sorts at
/// or after `wanted`, else the earliest row with the smallest such
/// path.
proof fn lemma_range_query_props(rows: Seq<PathRow>, wanted: Seq<char>, n: int)
    requires
        0 <= n <= rows.len(),
    ensures
        spec_range_query_prefix(rows, wanted, n) is None ==> forall|i: int|
            0 <= i < n ==> !lex_le(wanted, #[trigger] rows[i].path@),
        spec_range_query_prefix(rows, wanted, n) matches Some(b) ==> 0 <= b < n && lex_le(
            wanted,
            rows[b].path@,
        ) && forall|i: int|
            0 <= i < n && lex_le(wanted, #[trigger] rows[i].path@) ==> lex_le(
                rows[b].path@,
                rows[i].path@,
            ),
    decreases n,
{
    if n > 0 {
        lemma_range_query_props(rows, wanted, n - 1);
        let cur = rows[n - 1].path@;
        match spec_range_query_prefix(rows, wanted, n - 1) {
            Some(b) => {
                if lex_le(wanted, cur) && !lex_le(rows[b].path@, cur) {
                    lemma_lex_le_total(rows[b].path@, cur);
                    assert forall|i: int|
                        0 <= i < n && lex_le(wanted, #[trigger] rows[i].path@) implies lex_le(
                        cur,
                        rows[i].path@,
                    ) by {
                        if i < n - 1 {
                            lemma_lex_le_transitive(cur, rows[b].path@, rows[i].path@);
                        } else {
                            lemma_lex_le_reflexive(cur);
                        }
                    }
                }
            },
            None => {
                if lex_le(wanted, cur) {
                    lemma_lex_le_reflexive(cur);
                }
            },
        }
    }
}

/// A row stored in its prefixed form normalizes to itself.
proof fn lemma_prefixed_full_path(row: PathRow)
    requires
        starts_with(row.path@, spec_store_dir()),
    ensures
        row_full_path(row) == row.path@,
{
    assert(spec_store_dir() + row.path@.skip(spec_store_dir().len() as int) =~= row.path@);
}

/// With every row stored in its prefixed form, resolution returns no
/// row exactly when no stored path extends the wanted text -- a
/// neighbour that merely sorts after it is never returned -- and
/// otherwise the lexicographically smallest extending row.
pub proof fn lemma_resolved_finds_least_match(rows: Seq<PathRow>, hash: Seq<char>)
    requires
        forall|i: int|
            0 <= i < rows.len() ==> starts_with(#[trigger] rows[i].path@, spec_store_dir()),
    ensures
        spec_resolved(rows, hash) is None <==> forall|i: int|
            0 <= i < rows.len() ==> !row_matches(#[trigger] rows[i], spec_wanted(hash)),
        spec_resolved(rows, hash) matches Some(b) ==> 0 <= b < rows.len() && row_matches(
            rows[b],
            spec_wanted(hash),
        ) && forall|i: int|
            0 <= i < rows.len() && row_matches(#[trigger] rows[i], spec_wanted(hash)) ==> lex_le(
                rows[b].path@,
                rows[i].path@,
            ),
{
    let w = spec_wanted(hash);
    assert forall|i: int| 0 <= i < rows.len() implies row_full_path(#[trigger] rows[i])
        == rows[i].path@ by {
        lemma_prefixed_full_path(rows[i]);
    }
    lemma_range_query_props(rows, w, rows.len() as int);
    match spec_range_query(rows, w) {
        Some(b) => {
            if row_matches(rows[b], w) {
                assert forall|i: int|
                    0 <= i < rows.len() && row_matches(#[trigger] rows[i], w) implies lex_le(
                    rows[b].path@,
                    rows[i].path@,
                ) by {
                    lemma_prefix_lex_le(rows[i].path@, w);
                }
            } else {
                assert forall|i: int| 0 <= i < rows.len() implies !row_matches(
                    #[trigger] rows[i],
                    w,
                ) by {
                    if row_matches(rows[i], w) {
                        lemma_prefix_lex_le(rows[i].path@, w);
                        lemma_sorts_past_all_extensions(w, rows[b].path@, rows[i].path@);
                    }
                }
            }
        },
        None => {
            assert forall|i: int| 0 <= i < rows.len() implies !row_matches(
                #[trigger] rows[i],
                w,
            ) by {
                if row_matches(rows[i], w) {
                    lemma_prefix_lex_le(rows[i].path@, w);
                }
            }
        },
    }
}


/// The relative paths of the rows carrying identifier `rid`, in row
/// order.
pub open spec fn spec_rows_with_id(rows: Seq<PathRow>, rid: u64) -> Seq<Seq<char>>
    decreases rows.len(),
{
    if rows.len() == 0 {
        Seq::empty()
    } else {
        spec_rows_with_id(rows.drop_last(), rid) + (if rows.last().id == rid {
            seq![StorePath::spec_new(rows.last().path@)]
        } else {
            Seq::<Seq<char>>::empty()
        })
    }
}

/// The join's output for the record with identifier `rid`, in catalog
/// scan order: for each edge naming `rid` as referrer, the paths of the
/// rows carrying the referenced identifier.
pub open spec fn spec_join_rels(rows: Seq<PathRow>, refs: Seq<RefEdge>, rid: u64) -> Seq<Seq<char>>
    decreases refs.len(),
{
    if refs.len() == 0 {
        Seq::empty()
    } else {
        spec_join_rels(rows, refs.drop_last(), rid) + (if refs.last().referrer == rid {
            spec_rows_with_id(rows, refs.last().reference)
        } else {
            Seq::<Seq<char>>::empty()
        })
    }
}

/// The relative-path views of a path sequence.
pub open spec fn rels_of(s: Seq<StorePath>) -> Seq<Seq<char>> {
    s.map_values(|sp: StorePath| sp.rel())
}

/// The reference list as served: the join's paths in ascending
/// lexicographic order of their relative form.
pub open spec fn spec_references(rows: Seq<PathRow>, refs: Seq<RefEdge>, rid: u64) -> Seq<
    Seq<char>,
> {
    spec_join_rels(rows, refs, rid).sort_by(lex_leq())
}

/// The served reference list is ascending in the relative-path order
/// and holds exactly the join's paths, whatever order the catalog
/// returned them in.
pub proof fn lemma_references_sorted(rows: Seq<PathRow>, refs: Seq<RefEdge>, rid: u64)
    ensures
        sorted_by(spec_references(rows, refs, rid), lex_leq()),
        spec_references(rows, refs, rid).to_multiset() == spec_join_rels(
            rows,
            refs,
            rid,
        ).to_multiset(),
{
    lemma_lex_total_ordering();
    spec_join_rels(rows, refs, rid).lemma_sort_by_ensures(lex_leq());
}

/// Two catalogs whose dependency edges join to the same paths for a
/// record -- in whatever order the scan returned them -- serve the same
/// reference list.
pub proof fn lemma_references_order_independent(
    rows1: Seq<PathRow>,
    refs1: Seq<RefEdge>,
    rows2: Seq<PathRow>,
    refs2: Seq<RefEdge>,
    rid: u64,
)
    requires
        spec_join_rels(rows1, refs1, rid).to_multiset() == spec_join_rels(
            rows2,
            refs2,
            rid,
        ).to_multiset(),
    ensures
        spec_references(rows1, refs1, rid) == spec_references(rows2, refs2, rid),
{
    lemma_lex_total_ordering();
    lemma_references_sorted(rows1, refs1, rid);
    lemma_references_sorted(rows2, refs2, rid);
    vstd::seq_lib::lemma_sorted_unique(
        spec_references(rows1, refs1, rid),
        spec_references(rows2, refs2, rid),
        lex_leq(),
    );
}

/// Reorders the paths ascending by their relative form.
fn sort_by_rel(v: Vec<StorePath>) -> (r: Vec<StorePath>)
    ensures
        sorted_by(rels_of(r@), lex_leq()),
        rels_of(r@).to_multiset() == rels_of(v@).to_multiset(),
{
    broadcast use vstd::seq_lib::group_to_multiset_ensures;
    broadcast use vstd::multiset::group_multiset_axioms;

    let ghost orig_rels = rels_of(v@);
    let mut rest = v;
    let mut out: Vec<StorePath> = Vec::new();
    proof {
        assert(rels_of(out@) =~= Seq::<Seq<char>>::empty());
        assert(rels_of(out@).to_multiset().add(rels_of(rest@).to_multiset()) =~= orig_rels.to_multiset());
    }
    while rest.len() > 0
        invariant
            sorted_by(rels_of(out@), lex_leq()),
            rels_of(out@).to_multiset().add(rels_of(rest@).to_multiset())
                == orig_rels.to_multiset(),
            forall|a: int, b: int|
                0 <= a < out@.len() && 0 <= b < rest@.len() ==> lex_le(
                    #[trigger] rels_of(out@)[a],
                    #[trigger] rels_of(rest@)[b],
                ),
        decreases rest.len(),
    {
        let mut min: usize = 0;
        let mut k: usize = 1;
        proof {
            lemma_lex_le_reflexive(rels_of(rest@)[0]);
        }
        while k < rest.len()
            invariant
                0 < rest@.len(),
                min < k <= rest@.len(),
                forall|t: int|
                    0 <= t < k ==> lex_le(rels_of(rest@)[min as int], #[trigger] rels_of(
                        rest@,
                    )[t]),
            decreases rest.len() - k,
        {
            let smaller = str_lex_le(rest[k].0.as_str(), rest[min].0.as_str());
            proof {
                lemma_lex_le_total(rels_of(rest@)[k as int], rels_of(rest@)[min as int]);
                if smaller {
                    assert forall|t: int|
                        0 <= t < k + 1 implies lex_le(
                        rels_of(rest@)[k as int],
                        #[trigger] rels_of(rest@)[t],
                    ) by {
                        if t < k {
                            lemma_lex_le_transitive(
                                rels_of(rest@)[k as int],
                                rels_of(rest@)[min as int],
                                rels_of(rest@)[t],
                            );
                        } else {
                            lemma_lex_le_reflexive(rels_of(rest@)[k as int]);
                        }
                    }
                }
            }
            if smaller {
                min = k;
            }
            k = k + 1;
        }
        let ghost old_out = out@;
        let ghost old_rest = rest@;
        let x = rest.remove(min);
        out.push(x);
        proof {
            let xr = x.rel();
            assert(rels_of(old_rest).contains(xr)) by {
                assert(rels_of(old_rest)[min as int] == xr);
            }
            assert(rels_of(out@) =~= rels_of(old_out).push(xr));
            assert(rels_of(rest@) =~= rels_of(old_rest).remove(min as int));
            vstd::seq_lib::to_multiset_build(rels_of(old_out), xr);
            vstd::seq_lib::to_multiset_remove(rels_of(old_rest), min as int);
            vstd::seq_lib::to_multiset_contains(rels_of(old_rest), xr);
            assert(rels_of(out@).to_multiset() == rels_of(old_out).to_multiset().insert(xr));
            assert(rels_of(rest@).to_multiset() == rels_of(old_rest).to_multiset().remove(xr));
            assert(rels_of(old_rest).to_multiset().count(xr) > 0);
            assert(rels_of(out@).to_multiset().add(rels_of(rest@).to_multiset()) =~= orig_rels.to_multiset());
            assert forall|a: int, b: int|
                0 <= a < out@.len() && 0 <= b < rest@.len() implies lex_le(
                #[trigger] rels_of(out@)[a],
                #[trigger] rels_of(rest@)[b],
            ) by {
                let ob = if b < min { b } else { b + 1 };
                assert(rels_of(rest@)[b] == rels_of(old_rest)[ob]);
                if a < old_out.len() {
                    assert(lex_le(rels_of(old_out)[a], rels_of(old_rest)[ob]));
                } else {
                    assert(lex_le(xr, rels_of(old_rest)[ob]));
                }
            }
            assert forall|a: int, b: int|
                0 <= a < b < out@.len() implies lex_le(
                #[trigger] rels_of(out@)[a],
                #[trigger] rels_of(out@)[b],
            ) by {
                if b < old_out.len() {
                    assert(lex_leq()(rels_of(old_out)[a], rels_of(old_out)[b]));
                } else {
                    assert(lex_le(rels_of(old_out)[a], rels_of(old_rest)[min as int]));
                }
            }
        }
    }
    out
}

/// Collects the direct dependencies of a resolved record: every edge
/// naming the record joins to the rows carrying the referenced
/// identifier, and the result is sorted ascending by relative path --
/// the order the signing fingerprint requires.
pub fn get_references(catalog: &Catalog, path_info: &PathInfo) -> (r: Vec<StorePath>)
    ensures
        rels_of(r@) == spec_references(catalog.rows@, catalog.refs@, path_info.id),
{
    let rid = path_info.id;
    let mut collected: Vec<StorePath> = Vec::new();
    let refs_len = catalog.refs.len();
    proof {
        assert(rels_of(collected@) =~= spec_join_rels(catalog.rows@, catalog.refs@.take(0), rid));
    }
    let mut e: usize = 0;
    while e < refs_len
        invariant
            e <= refs_len,
            refs_len == catalog.refs@.len(),
            rid == path_info.id,
            rels_of(collected@) == spec_join_rels(catalog.rows@, catalog.refs@.take(e as int), rid),
        decreases refs_len - e,
    {
        let ghost before = collected@;
        if catalog.refs[e].referrer == rid {
            let target = catalog.refs[e].reference;
            let rows_len = catalog.rows.len();
            proof {
                assert(rels_of(collected@) =~= rels_of(before) + spec_rows_with_id(
                    catalog.rows@.take(0),
                    target,
                ));
            }
            let mut w: usize = 0;
            while w < rows_len
                invariant
                    w <= rows_len,
                    rows_len == catalog.rows@.len(),
                    rels_of(collected@) == rels_of(before) + spec_rows_with_id(
                        catalog.rows@.take(w as int),
                        target,
                    ),
                decreases rows_len - w,
            {
                let ghost mid = collected@;
                if catalog.rows[w].id == target {
                    collected.push(StorePath::new(catalog.rows[w].path.as_str()));
                    proof {
                        assert(rels_of(collected@) =~= rels_of(mid).push(
                            StorePath::spec_new(catalog.rows@[w as int].path@),
                        ));
                    }
                }
                proof {
                    assert(catalog.rows@.take(w + 1).drop_last() =~= catalog.rows@.take(w as int));
                    assert(catalog.rows@.take(w + 1).last() == catalog.rows@[w as int]);
                    assert(rels_of(collected@) =~= rels_of(before) + spec_rows_with_id(
                        catalog.rows@.take(w + 1),
                        target,
                    ));
                }
                w = w + 1;
            }
            proof {
                assert(catalog.rows@.take(rows_len as int) =~= catalog.rows@);
            }
        }
        proof {
            assert(catalog.refs@.take(e + 1).drop_last() =~= catalog.refs@.take(e as int));
            assert(catalog.refs@.take(e + 1).last() == catalog.refs@[e as int]);
            assert(rels_of(collected@) =~= spec_join_rels(
                catalog.rows@,
                catalog.refs@.take(e + 1),
                rid,
            ));
        }
        e = e + 1;
    }
    proof {
        assert(catalog.refs@.take(refs_len as int) =~= catalog.refs@);
    }
    let r = sort_by_rel(collected);
    proof {
        lemma_lex_total_ordering();
        lemma_references_sorted(catalog.rows@, catalog.refs@, rid);
        vstd::seq_lib::lemma_sorted_unique(
            rels_of(r@),
            spec_references(catalog.rows@, catalog.refs@, rid),
            lex_leq(),
        );
    }
    r
}

} // verus!
