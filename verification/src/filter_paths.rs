//! The filter engine: per-record admission against blacklist, whitelist
//! and size-window rules, and the two-pass shared-key selection that keeps
//! only records whose size or hash is shared with another record.

use crate::detect_dups::record_views;
use crate::internals::{Record, RecordV};
use crate::text::{
    contains_str, contains_sub, ends_with_str, is_prefix_of, is_suffix_of, lower_of, lowercase,
    starts_with_str,
};
use crate::unique_paths::{contains_path, holds_path};
use vstd::prelude::*;
use vstd::string::{StrSliceExecFns, StringExecFns};

verus! {

/// One path pattern.  A pattern written with the reserved
/// `:case-insensitive:!` prefix matches with both sides lowercased; any
/// other pattern matches exactly.
#[derive(Debug)]
pub struct FilterPath {
    path: String,
    case_insensitive: bool,
}

/// The mathematical content of a `FilterPath`.
pub ghost struct FilterPathV {
    pub pat: Seq<char>,
    pub case_insensitive: bool,
}

impl View for FilterPath {
    type V = FilterPathV;

    closed spec fn view(&self) -> FilterPathV {
        FilterPathV { pat: self.path@, case_insensitive: self.case_insensitive }
    }
}

/// What `FilterPath::new` stores for a pattern string: with the marker,
/// the lowercased remainder and the case-insensitive flag; without it, the
/// string itself.
pub open spec fn filter_path_of(s: Seq<char>) -> FilterPathV {
    if is_prefix_of(":case-insensitive:!"@, s) {
        FilterPathV {
            pat: lower_of(s.subrange(":case-insensitive:!"@.len() as int, s.len() as int)),
            case_insensitive: true,
        }
    } else {
        FilterPathV { pat: s, case_insensitive: false }
    }
}

/// Does `other` end with this pattern?
pub open spec fn fp_matches_end(fp: FilterPathV, other: Seq<char>) -> bool {
    if fp.case_insensitive {
        is_suffix_of(fp.pat, lower_of(other))
    } else {
        is_suffix_of(fp.pat, other)
    }
}

/// Does `other` start with this pattern?
pub open spec fn fp_matches_start(fp: FilterPathV, other: Seq<char>) -> bool {
    if fp.case_insensitive {
        is_prefix_of(fp.pat, lower_of(other))
    } else {
        is_prefix_of(fp.pat, other)
    }
}

/// Does `other` contain this pattern?
pub open spec fn fp_matches_content(fp: FilterPathV, other: Seq<char>) -> bool {
    if fp.case_insensitive {
        contains_sub(lower_of(other), fp.pat)
    } else {
        contains_sub(other, fp.pat)
    }
}

impl FilterPath {
    /// Reads one pattern, stripping and recording the case-insensitive
    /// marker.
    pub fn new(path: &str) -> (r: FilterPath)
        ensures
            r@ == filter_path_of(path@),
    {
        let case_insensitive = starts_with_str(path, ":case-insensitive:!");
        if case_insensitive {
            proof {
                reveal_strlit(":case-insensitive:!");
            }
            let n = path.unicode_len();
            let rest = path.substring_char(19, n);
            FilterPath { path: lowercase(rest), case_insensitive: true }
        } else {
            FilterPath { path: path.to_owned(), case_insensitive: false }
        }
    }

    /// Does `other` end with this pattern?
    pub fn ends_with(&self, other: &str) -> (r: bool)
        ensures
            r == fp_matches_end(self@, other@),
    {
        if self.case_insensitive {
            let low = lowercase(other);
            ends_with_str(low.as_str(), self.path.as_str())
        } else {
            ends_with_str(other, self.path.as_str())
        }
    }

    /// Does `other` start with this pattern?
    pub fn starts_with(&self, other: &str) -> (r: bool)
        ensures
            r == fp_matches_start(self@, other@),
    {
        if self.case_insensitive {
            let low = lowercase(other);
            starts_with_str(low.as_str(), self.path.as_str())
        } else {
            starts_with_str(other, self.path.as_str())
        }
    }

    /// Does `other` contain this pattern?
    pub fn contains(&self, other: &str) -> (r: bool)
        ensures
            r == fp_matches_content(self@, other@),
    {
        if self.case_insensitive {
            let low = lowercase(other);
            contains_str(low.as_str(), self.path.as_str())
        } else {
            contains_str(other, self.path.as_str())
        }
    }
}

/// A first-seen slot for one key during the shared-key passes: it holds
/// the first path seen with the key until a second record with the key
/// takes it.
pub struct MapValue {
    pub path: Option<String>,
}

impl MapValue {
    /// A slot still holding its first-seen path.
    pub fn new(path: String) -> (r: Self)
        ensures
            r.path matches Some(p) && p@ == path@,
    {
        MapValue { path: Some(path) }
    }
}

/// The views of a pattern list.
pub open spec fn fp_views(v: Seq<FilterPath>) -> Seq<FilterPathV> {
    v.map_values(|f: FilterPath| f@)
}

/// The filter engine's settings: files, the size window, the shared-key
/// toggles, and the pattern lists.
#[derive(Debug)]
pub struct FilterPathsConfig {
    pub source_file: String,
    pub target_file: String,
    pub debug: crate::common::Debug,
    pub error_log: Option<String>,
    pub size_min: u64,
    pub size_max: u64,
    pub unique_sizes: bool,
    pub unique_hashes: bool,
    pub blacklist_path_starts: Vec<FilterPath>,
    pub blacklist_path_ends: Vec<FilterPath>,
    pub blacklist_path_contents: Vec<FilterPath>,
    pub whitelist_path_ends: Vec<FilterPath>,
    pub whitelist_path_contents: Vec<FilterPath>,
}

/// The mathematical content of a `FilterPathsConfig`.
pub ghost struct FilterPathsConfigV {
    pub size_min: u64,
    pub size_max: u64,
    pub unique_sizes: bool,
    pub unique_hashes: bool,
    pub blacklist_path_starts: Seq<FilterPathV>,
    pub blacklist_path_ends: Seq<FilterPathV>,
    pub blacklist_path_contents: Seq<FilterPathV>,
    pub whitelist_path_ends: Seq<FilterPathV>,
    pub whitelist_path_contents: Seq<FilterPathV>,
}

impl View for FilterPathsConfig {
    type V = FilterPathsConfigV;

    open spec fn view(&self) -> FilterPathsConfigV {
        FilterPathsConfigV {
            size_min: self.size_min,
            size_max: self.size_max,
            unique_sizes: self.unique_sizes,
            unique_hashes: self.unique_hashes,
            blacklist_path_starts: fp_views(self.blacklist_path_starts@),
            blacklist_path_ends: fp_views(self.blacklist_path_ends@),
            blacklist_path_contents: fp_views(self.blacklist_path_contents@),
            whitelist_path_ends: fp_views(self.whitelist_path_ends@),
            whitelist_path_contents: fp_views(self.whitelist_path_contents@),
        }
    }
}

impl Default for FilterPathsConfig {
    /// The permissive configuration: no patterns, the whole size range,
    /// no shared-key selection.
    fn default() -> (r: Self)
        ensures
            r@.size_min == 0,
            r@.size_max == u64::MAX,
            !r@.unique_sizes,
            !r@.unique_hashes,
            r@.blacklist_path_starts.len() == 0,
            r@.blacklist_path_ends.len() == 0,
            r@.blacklist_path_contents.len() == 0,
            r@.whitelist_path_ends.len() == 0,
            r@.whitelist_path_contents.len() == 0,
            r.source_file@.len() == 0,
            r.target_file@.len() == 0,
            r.debug is Off,
            r.error_log is None,
    {
        let r = FilterPathsConfig {
            source_file: String::new(),
            target_file: String::new(),
            debug: crate::common::Debug::Off,
            error_log: None,
            size_min: 0,
            size_max: u64::MAX,
            unique_sizes: false,
            unique_hashes: false,
            blacklist_path_starts: Vec::new(),
            blacklist_path_ends: Vec::new(),
            blacklist_path_contents: Vec::new(),
            whitelist_path_ends: Vec::new(),
            whitelist_path_contents: Vec::new(),
        };
        proof {
            assert(fp_views(r.blacklist_path_starts@) =~= Seq::<FilterPathV>::empty());
            assert(fp_views(r.blacklist_path_ends@) =~= Seq::<FilterPathV>::empty());
            assert(fp_views(r.blacklist_path_contents@) =~= Seq::<FilterPathV>::empty());
            assert(fp_views(r.whitelist_path_ends@) =~= Seq::<FilterPathV>::empty());
            assert(fp_views(r.whitelist_path_contents@) =~= Seq::<FilterPathV>::empty());
        }
        r
    }
}

/// Some pattern in the list matches the start of `path`.
pub open spec fn any_matches_start(fps: Seq<FilterPathV>, path: Seq<char>) -> bool {
    exists|i: int| 0 <= i < fps.len() && fp_matches_start(#[trigger] fps[i], path)
}

/// Some pattern in the list matches the end of `path`.
pub open spec fn any_matches_end(fps: Seq<FilterPathV>, path: Seq<char>) -> bool {
    exists|i: int| 0 <= i < fps.len() && fp_matches_end(#[trigger] fps[i], path)
}

/// Some pattern in the list occurs inside `path`.
pub open spec fn any_matches_content(fps: Seq<FilterPathV>, path: Seq<char>) -> bool {
    exists|i: int| 0 <= i < fps.len() && fp_matches_content(#[trigger] fps[i], path)
}

fn any_starts_exec(fps: &Vec<FilterPath>, path: &str) -> (r: bool)
    ensures
        r == any_matches_start(fp_views(fps@), path@),
{
    let n = fps.len();
    let mut i: usize = 0;
    while i < n
        invariant
            0 <= i <= n,
            n == fps@.len(),
            forall|j: int| 0 <= j < i ==> !fp_matches_start(#[trigger] fp_views(fps@)[j], path@),
        decreases n - i,
    {
        if fps[i].starts_with(path) {
            assert(fp_matches_start(fp_views(fps@)[i as int], path@));
            return true;
        }
        i = i + 1;
    }
    false
}

fn any_ends_exec(fps: &Vec<FilterPath>, path: &str) -> (r: bool)
    ensures
        r == any_matches_end(fp_views(fps@), path@),
{
    let n = fps.len();
    let mut i: usize = 0;
    while i < n
        invariant
            0 <= i <= n,
            n == fps@.len(),
            forall|j: int| 0 <= j < i ==> !fp_matches_end(#[trigger] fp_views(fps@)[j], path@),
        decreases n - i,
    {
        if fps[i].ends_with(path) {
            assert(fp_matches_end(fp_views(fps@)[i as int], path@));
            return true;
        }
        i = i + 1;
    }
    false
}

fn any_contents_exec(fps: &Vec<FilterPath>, path: &str) -> (r: bool)
    ensures
        r == any_matches_content(fp_views(fps@), path@),
{
    let n = fps.len();
    let mut i: usize = 0;
    while i < n
        invariant
            0 <= i <= n,
            n == fps@.len(),
            forall|j: int| 0 <= j < i ==> !fp_matches_content(#[trigger] fp_views(fps@)[j], path@),
        decreases n - i,
    {
        if fps[i].contains(path) {
            assert(fp_matches_content(fp_views(fps@)[i as int], path@));
            return true;
        }
        i = i + 1;
    }
    false
}

/// A record is rejected if any blacklist pattern matches its path, if a
/// configured whitelist matches nothing of it, or if its size falls
/// outside the inclusive window.
pub open spec fn is_filtered_spec(c: FilterPathsConfigV, path: Seq<char>, size: u64) -> bool {
    ||| (c.blacklist_path_starts.len() > 0 && any_matches_start(c.blacklist_path_starts, path))
    ||| (c.blacklist_path_ends.len() > 0 && any_matches_end(c.blacklist_path_ends, path))
    ||| (c.blacklist_path_contents.len() > 0 && any_matches_content(
        c.blacklist_path_contents,
        path,
    ))
    ||| (c.whitelist_path_ends.len() > 0 && !any_matches_end(c.whitelist_path_ends, path))
    ||| (c.whitelist_path_contents.len() > 0 && !any_matches_content(
        c.whitelist_path_contents,
        path,
    ))
    ||| size < c.size_min
    ||| size > c.size_max
}

/// Decides whether one record is rejected.
pub fn is_filtered(config: &FilterPathsConfig, path: &str, size: u64) -> (r: bool)
    ensures
        r == is_filtered_spec(config@, path@, size),
{
    if config.blacklist_path_starts.len() > 0 && any_starts_exec(
        &config.blacklist_path_starts,
        path,
    ) {
        return true;
    }
    if config.blacklist_path_ends.len() > 0 && any_ends_exec(&config.blacklist_path_ends, path) {
        return true;
    }
    if config.blacklist_path_contents.len() > 0 && any_contents_exec(
        &config.blacklist_path_contents,
        path,
    ) {
        return true;
    }
    if config.whitelist_path_ends.len() > 0 && !any_ends_exec(&config.whitelist_path_ends, path) {
        return true;
    }
    if config.whitelist_path_contents.len() > 0 && !any_contents_exec(
        &config.whitelist_path_contents,
        path,
    ) {
        return true;
    }
    if size < config.size_min || size > config.size_max {
        return true;
    }
    false
}

/// The records that pass the per-record rules, in order.
pub open spec fn admitted_of(c: FilterPathsConfigV, records: Seq<RecordV>) -> Seq<RecordV> {
    records.filter(|r: RecordV| !is_filtered_spec(c, r.path, r.size))
}

/// Another admitted record has the same size as `adm[i]`.
pub open spec fn shares_size(adm: Seq<RecordV>, i: int) -> bool {
    exists|j: int| 0 <= j < adm.len() && j != i && (#[trigger] adm[j]).size == adm[i].size
}

/// Another admitted record has the same hash as `adm[i]`.
pub open spec fn shares_hash(adm: Seq<RecordV>, i: int) -> bool {
    exists|j: int| 0 <= j < adm.len() && j != i && (#[trigger] adm[j]).hash == adm[i].hash
}

/// Whether an admitted record at `i` shares a selected key with another
/// admitted record.
pub open spec fn is_shared_at(c: FilterPathsConfigV, adm: Seq<RecordV>, i: int) -> bool {
    (c.unique_sizes && shares_size(adm, i)) || (c.unique_hashes && shares_hash(adm, i))
}

/// `p` is the path of some admitted record that shares a selected key.
pub open spec fn dup_path(c: FilterPathsConfigV, adm: Seq<RecordV>, p: Seq<char>) -> bool {
    exists|i: int| 0 <= i < adm.len() && (#[trigger] adm[i]).path == p && is_shared_at(c, adm, i)
}

/// Whether the second pass keeps a record: with a shared-key toggle on,
/// only paths of key-sharing records stay; otherwise everything admitted
/// stays.
pub open spec fn kept(c: FilterPathsConfigV, adm: Seq<RecordV>, r: RecordV) -> bool {
    if c.unique_sizes || c.unique_hashes {
        dup_path(c, adm, r.path)
    } else {
        true
    }
}

/// What the filter stage emits for a record list: the admitted records,
/// thinned by the shared-key passes where configured.
pub open spec fn filtered_records_spec(c: FilterPathsConfigV, records: Seq<RecordV>) -> Seq<
    RecordV,
> {
    let adm = admitted_of(c, records);
    adm.filter(|r: RecordV| kept(c, adm, r))
}

proof fn lemma_admitted_push(c: FilterPathsConfigV, rs: Seq<RecordV>, r: RecordV)
    ensures
        admitted_of(c, rs.push(r)) == if !is_filtered_spec(c, r.path, r.size) {
            admitted_of(c, rs).push(r)
        } else {
            admitted_of(c, rs)
        },
{
    reveal(Seq::filter);
    assert(rs.push(r).drop_last() =~= rs);
    assert(rs.push(r).last() == r);
}

proof fn lemma_kept_push(c: FilterPathsConfigV, adm: Seq<RecordV>, rs: Seq<RecordV>, r: RecordV)
    ensures
        rs.push(r).filter(|x: RecordV| kept(c, adm, x)) == if kept(c, adm, r) {
            rs.filter(|x: RecordV| kept(c, adm, x)).push(r)
        } else {
            rs.filter(|x: RecordV| kept(c, adm, x))
        },
{
    reveal(Seq::filter);
    assert(rs.push(r).drop_last() =~= rs);
    assert(rs.push(r).last() == r);
}

fn shares_size_exec(admitted: &Vec<Record>, i: usize) -> (r: bool)
    requires
        i < admitted@.len(),
    ensures
        r == shares_size(record_views(admitted@), i as int),
{
    let n = admitted.len();
    let mut j: usize = 0;
    while j < n
        invariant
            0 <= j <= n,
            i < n,
            n == admitted@.len(),
            forall|m: int|
                0 <= m < j && m != i ==> (#[trigger] record_views(admitted@)[m]).size
                    != record_views(admitted@)[i as int].size,
        decreases n - j,
    {
        if j != i && admitted[j].size == admitted[i].size {
            assert(record_views(admitted@)[j as int].size == record_views(
                admitted@,
            )[i as int].size);
            return true;
        }
        j = j + 1;
    }
    false
}

fn shares_hash_exec(admitted: &Vec<Record>, i: usize) -> (r: bool)
    requires
        i < admitted@.len(),
    ensures
        r == shares_hash(record_views(admitted@), i as int),
{
    let n = admitted.len();
    let mut j: usize = 0;
    while j < n
        invariant
            0 <= j <= n,
            i < n,
            n == admitted@.len(),
            forall|m: int|
                0 <= m < j && m != i ==> (#[trigger] record_views(admitted@)[m]).hash
                    != record_views(admitted@)[i as int].hash,
        decreases n - j,
    {
        if j != i && crate::text::str_eq(admitted[j].hash.as_str(), admitted[i].hash.as_str()) {
            assert(record_views(admitted@)[j as int].hash == record_views(
                admitted@,
            )[i as int].hash);
            return true;
        }
        j = j + 1;
    }
    false
}

/// Runs the whole filter stage over one run's records: per-record rules
/// first, then — with a shared-key toggle on — the two passes that keep
/// only records whose size or hash another admitted record repeats.
pub fn filter_records(config: &FilterPathsConfig, records: &Vec<Record>) -> (r: Vec<Record>)
    ensures
        record_views(r@) == filtered_records_spec(config@, record_views(records@)),
{
    let ghost c = config@;
    let ghost rv = record_views(records@);
    // first pass: admission
    let mut admitted: Vec<Record> = Vec::new();
    proof {
        assert(rv.take(0) =~= Seq::<RecordV>::empty());
        reveal(Seq::filter);
        assert(record_views(admitted@) =~= admitted_of(c, rv.take(0)));
    }
    let n = records.len();
    let mut i: usize = 0;
    while i < n
        invariant
            0 <= i <= n,
            n == records@.len(),
            c == config@,
            rv == record_views(records@),
            record_views(admitted@) == admitted_of(c, rv.take(i as int)),
        decreases n - i,
    {
        let rec = &records[i];
        proof {
            assert(rv.take(i + 1) =~= rv.take(i as int).push(rv[i as int]));
            lemma_admitted_push(c, rv.take(i as int), rv[i as int]);
        }
        if !is_filtered(config, rec.path.as_str(), rec.size) {
            let ghost before = admitted@;
            admitted.push(
                Record { path: rec.path.clone(), size: rec.size, hash: rec.hash.clone() },
            );
            proof {
                assert(record_views(admitted@) =~= record_views(before).push(rv[i as int]));
            }
        }
        i = i + 1;
    }
    proof {
        assert(rv.take(n as int) =~= rv);
    }
    let ghost adm = record_views(admitted@);
    let selecting = config.unique_sizes || config.unique_hashes;
    // second pass: which paths share a key
    let mut dups: Vec<String> = Vec::new();
    if selecting {
        let na = admitted.len();
        let mut k: usize = 0;
        while k < na
            invariant
                0 <= k <= na,
                na == admitted@.len(),
                c == config@,
                adm == record_views(admitted@),
                forall|p: Seq<char>| #[trigger]
                    holds_path(dups@, p) <==> exists|m: int|
                        0 <= m < k && (#[trigger] adm[m]).path == p && is_shared_at(c, adm, m),
            decreases na - k,
        {
            let shared = (config.unique_sizes && shares_size_exec(&admitted, k)) || (
            config.unique_hashes && shares_hash_exec(&admitted, k));
            assert(shared == is_shared_at(c, adm, k as int));
            if shared {
                let ghost before = dups@;
                dups.push(admitted[k].path.clone());
                proof {
                    assert(forall|m: int| 0 <= m < before.len() ==> dups@[m] == before[m]);
                    assert(dups@[dups@.len() - 1]@ == adm[k as int].path);
                    assert forall|q: Seq<char>| #[trigger] holds_path(dups@, q) implies (
                    holds_path(before, q) || q == adm[k as int].path) by {
                        let m = choose|m: int| 0 <= m < dups@.len() && (#[trigger] dups@[m])@ == q;
                        if m < before.len() {
                            assert(holds_path(before, q));
                        }
                    }
                    assert forall|q: Seq<char>| (holds_path(before, q) || q == adm[k as int].path)
                        implies #[trigger] holds_path(dups@, q) by {
                        if holds_path(before, q) {
                            let m = choose|m: int|
                                0 <= m < before.len() && (#[trigger] before[m])@ == q;
                            assert(dups@[m]@ == q);
                        } else {
                            assert(dups@[dups@.len() - 1]@ == q);
                        }
                    }
                }
            }
            proof {
                assert forall|p: Seq<char>| #[trigger] holds_path(dups@, p) implies exists|m: int|
                    0 <= m < k + 1 && (#[trigger] adm[m]).path == p && is_shared_at(c, adm, m) by {
                    if p == adm[k as int].path && shared {
                        assert(adm[k as int].path == p && is_shared_at(c, adm, k as int));
                    }
                }
                assert forall|p: Seq<char>|
                    (exists|m: int|
                        0 <= m < k + 1 && (#[trigger] adm[m]).path == p && is_shared_at(
                            c,
                            adm,
                            m,
                        )) implies #[trigger] holds_path(dups@, p) by {
                    let m = choose|m: int|
                        0 <= m < k + 1 && (#[trigger] adm[m]).path == p && is_shared_at(c, adm, m);
                    if m == k {
                        assert(shared);
                        assert(holds_path(dups@, p));
                    }
                }
            }
            k = k + 1;
        }
    }
    proof {
        if c.unique_sizes || c.unique_hashes {
            assert(forall|p: Seq<char>| #[trigger] holds_path(dups@, p) <==> dup_path(c, adm, p));
        }
    }
    // third pass: emit
    let mut out: Vec<Record> = Vec::new();
    proof {
        assert(adm.take(0) =~= Seq::<RecordV>::empty());
        reveal(Seq::filter);
        assert(record_views(out@) =~= adm.take(0).filter(|x: RecordV| kept(c, adm, x)));
    }
    let na = admitted.len();
    let mut k: usize = 0;
    while k < na
        invariant
            0 <= k <= na,
            na == admitted@.len(),
            c == config@,
            adm == record_views(admitted@),
            selecting == (c.unique_sizes || c.unique_hashes),
            forall|p: Seq<char>|
                selecting ==> (#[trigger] holds_path(dups@, p) <==> dup_path(c, adm, p)),
            record_views(out@) == adm.take(k as int).filter(|x: RecordV| kept(c, adm, x)),
        decreases na - k,
    {
        let rec = &admitted[k];
        proof {
            assert(adm.take(k + 1) =~= adm.take(k as int).push(adm[k as int]));
            lemma_kept_push(c, adm, adm.take(k as int), adm[k as int]);
        }
        let keep = if selecting {
            contains_path(&dups, rec.path.as_str())
        } else {
            true
        };
        assert(keep == kept(c, adm, adm[k as int]));
        if keep {
            let ghost before = out@;
            out.push(
                Record { path: rec.path.clone(), size: rec.size, hash: rec.hash.clone() },
            );
            proof {
                assert(record_views(out@) =~= record_views(before).push(adm[k as int]));
            }
        }
        k = k + 1;
    }
    proof {
        assert(adm.take(na as int) =~= adm);
    }
    out
}

/// The exact sum of the record sizes.
pub open spec fn sum_sizes(records: Seq<RecordV>) -> int
    decreases records.len(),
{
    if records.len() == 0 {
        0
    } else {
        sum_sizes(records.drop_last()) + records.last().size
    }
}

proof fn lemma_sum_sizes_nonneg(records: Seq<RecordV>)
    ensures
        sum_sizes(records) >= 0,
    decreases records.len(),
{
    if records.len() > 0 {
        lemma_sum_sizes_nonneg(records.drop_last());
    }
}

/// The total byte size of a record list, saturating at the largest
/// representable count.
pub fn total_size(records: &Vec<Record>) -> (r: u64)
    ensures
        r as int == if sum_sizes(record_views(records@)) <= u64::MAX {
            sum_sizes(record_views(records@))
        } else {
            u64::MAX as int
        },
{
    let ghost rv = record_views(records@);
    let mut acc: u64 = 0;
    proof {
        assert(rv.take(0) =~= Seq::<RecordV>::empty());
    }
    let n = records.len();
    let mut i: usize = 0;
    while i < n
        invariant
            0 <= i <= n,
            n == records@.len(),
            rv == record_views(records@),
            acc as int == if sum_sizes(rv.take(i as int)) <= u64::MAX {
                sum_sizes(rv.take(i as int))
            } else {
                u64::MAX as int
            },
        decreases n - i,
    {
        proof {
            assert(rv.take(i + 1).drop_last() =~= rv.take(i as int));
            assert(rv.take(i + 1).last() == rv[i as int]);
            lemma_sum_sizes_nonneg(rv.take(i as int));
        }
        let size = records[i].size;
        if u64::MAX - size < acc {
            acc = u64::MAX;
        } else {
            acc = acc + size;
        }
        i = i + 1;
    }
    proof {
        assert(rv.take(n as int) =~= rv);
    }
    acc
}

} // verus!
