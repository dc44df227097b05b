//! The duplicate grouper: partitions records by their hash key, enforcing
//! the collision invariant (one key, one size), and emits the groups with
//! two or more members in canonical order — each group sorted, groups
//! ordered by their members.

use crate::internals::{PipelineError, Record, RecordV};
use crate::text::{
    lemma_lex_leq_by_total, lemma_lex_leq_total, lex_leq, lex_leq_by, lex_leq_fn, push_char,
    sort_strings, str_eq, str_leq, str_views,
};
use vstd::prelude::*;
use vstd::relations::{sorted_by, total_ordering};
use vstd::seq_lib::lemma_sorted_unique;
use vstd::string::{StrSliceExecFns, StringExecFns};

verus! {

/// Where the duplicate-detection stage reads and writes, and how it
/// reports errors.
#[derive(Debug, Clone)]
pub struct DetectDupsConfig {
    pub source_file: String,
    pub target_file: String,
    pub debug: crate::common::Debug,
    pub error_log: Option<String>,
}

/// One key's state inside a running grouper: the first record seen with
/// this key, and every later path that repeated it.
pub struct GroupEntry {
    key: String,
    first_path: String,
    size: u64,
    dup_paths: Vec<String>,
}

/// The mathematical content of a `GroupEntry`.
pub ghost struct GroupEntryV {
    pub key: Seq<char>,
    pub first_path: Seq<char>,
    pub size: u64,
    pub dup_paths: Seq<Seq<char>>,
}

impl View for GroupEntry {
    type V = GroupEntryV;

    closed spec fn view(&self) -> GroupEntryV {
        GroupEntryV {
            key: self.key@,
            first_path: self.first_path@,
            size: self.size,
            dup_paths: str_views(self.dup_paths@),
        }
    }
}

/// All the paths recorded under one key, first-seen path first.
pub open spec fn members_of(e: GroupEntryV) -> Seq<Seq<char>> {
    seq![e.first_path] + e.dup_paths
}

/// The index of the entry holding `key`, or -1 if no entry does.
pub open spec fn find_key(entries: Seq<GroupEntryV>, key: Seq<char>) -> int
    decreases entries.len(),
{
    if entries.len() == 0 {
        -1
    } else if entries[0].key == key {
        0
    } else {
        let rest = find_key(entries.drop_first(), key);
        if rest == -1 {
            -1
        } else {
            rest + 1
        }
    }
}

pub proof fn lemma_find_key_props(entries: Seq<GroupEntryV>, key: Seq<char>)
    ensures
        find_key(entries, key) == -1 <==> (forall|k: int|
            0 <= k < entries.len() ==> (#[trigger] entries[k]).key != key),
        find_key(entries, key) != -1 ==> 0 <= find_key(entries, key) < entries.len()
            && entries[find_key(entries, key)].key == key && (forall|k: int|
            0 <= k < find_key(entries, key) ==> (#[trigger] entries[k]).key != key),
    decreases entries.len(),
{
    if entries.len() > 0 {
        lemma_find_key_props(entries.drop_first(), key);
        assert(forall|k: int|
            1 <= k < entries.len() ==> (#[trigger] entries[k]) == entries.drop_first()[k - 1]);
    }
}

/// One grouper step.  A record whose key is new starts an entry; one whose
/// key is known either extends that entry's duplicate list (sizes agree)
/// or stops the run with the two colliding paths (sizes disagree).
pub open spec fn grouper_step(entries: Seq<GroupEntryV>, r: RecordV) -> Result<
    Seq<GroupEntryV>,
    (Seq<char>, Seq<char>),
> {
    let i = find_key(entries, r.hash);
    if i == -1 {
        Ok(
            entries.push(
                GroupEntryV {
                    key: r.hash,
                    first_path: r.path,
                    size: r.size,
                    dup_paths: Seq::empty(),
                },
            ),
        )
    } else if entries[i].size != r.size {
        Err((r.path, entries[i].first_path))
    } else {
        Ok(
            entries.update(
                i,
                GroupEntryV {
                    key: entries[i].key,
                    first_path: entries[i].first_path,
                    size: entries[i].size,
                    dup_paths: entries[i].dup_paths.push(r.path),
                },
            ),
        )
    }
}

/// The grouper's state after processing `records` in order, or the pair
/// of colliding paths at the first integrity fault.
pub open spec fn run_grouper(records: Seq<RecordV>) -> Result<
    Seq<GroupEntryV>,
    (Seq<char>, Seq<char>),
>
    decreases records.len(),
{
    if records.len() == 0 {
        Ok(Seq::empty())
    } else {
        match run_grouper(records.drop_last()) {
            Ok(entries) => grouper_step(entries, records.last()),
            Err(e) => Err(e),
        }
    }
}

/// The views of a vector of records.
pub open spec fn record_views(rs: Seq<Record>) -> Seq<RecordV> {
    rs.map_values(|r: Record| r@)
}

/// The views of a vector of groups.
pub open spec fn group_views(gs: Seq<Vec<String>>) -> Seq<Seq<Seq<char>>> {
    gs.map_values(|g: Vec<String>| str_views(g@))
}

/// The entries that saw at least one duplicate.
pub open spec fn dup_entries(entries: Seq<GroupEntryV>) -> Seq<GroupEntryV> {
    entries.filter(|e: GroupEntryV| e.dup_paths.len() >= 1)
}

/// The groups hiding in a grouper state: every key that saw at least one
/// duplicate, as first-seen path followed by the later paths.
pub open spec fn groups_of(entries: Seq<GroupEntryV>) -> Seq<Seq<Seq<char>>> {
    dup_entries(entries).map_values(|e: GroupEntryV| members_of(e))
}

/// The order on groups: lexicographic over their member lists.  Groups
/// with distinct first members — the only case that arises, since paths
/// are unique within a run — are thereby ordered by their first member.
pub open spec fn group_leq_fn() -> spec_fn(Seq<Seq<char>>, Seq<Seq<char>>) -> bool {
    |a: Seq<Seq<char>>, b: Seq<Seq<char>>| lex_leq_by(a, b, lex_leq_fn())
}

/// The canonical presentation of a grouper state: each group sorted, then
/// the groups sorted.
pub open spec fn canonical_groups_of(entries: Seq<GroupEntryV>) -> Seq<Seq<Seq<char>>> {
    groups_of(entries).map_values(|g: Seq<Seq<char>>| g.sort_by(lex_leq_fn())).sort_by(
        group_leq_fn(),
    )
}

/// What the duplicate-detection stage computes from a record list: its
/// canonical duplicate groups, or the first collision.
pub open spec fn grouped_records(records: Seq<RecordV>) -> Result<
    Seq<Seq<Seq<char>>>,
    (Seq<char>, Seq<char>),
> {
    match run_grouper(records) {
        Ok(entries) => Ok(canonical_groups_of(entries)),
        Err(e) => Err(e),
    }
}

pub proof fn lemma_group_leq_total()
    ensures
        total_ordering(group_leq_fn()),
{
    lemma_lex_leq_total();
    lemma_lex_leq_by_total::<Seq<char>>(lex_leq_fn());
    let lifted = |a: Seq<Seq<char>>, b: Seq<Seq<char>>| lex_leq_by(a, b, lex_leq_fn());
    assert(group_leq_fn() =~= lifted);
}

/// The duplicate grouper.  It owns one entry per distinct key seen so
/// far; `add_record` feeds it one record, `emit_sorted_groups` reads off
/// the canonical duplicate groups.
pub struct Grouper {
    entries: Vec<GroupEntry>,
}

impl View for Grouper {
    type V = Seq<GroupEntryV>;

    closed spec fn view(&self) -> Seq<GroupEntryV> {
        self.entries@.map_values(|e: GroupEntry| e@)
    }
}

impl Grouper {
    /// A grouper that has seen nothing.
    pub fn new() -> (r: Grouper)
        ensures
            r@ == Seq::<GroupEntryV>::empty(),
    {
        let r = Grouper { entries: Vec::new() };
        proof {
            assert(r@ =~= Seq::<GroupEntryV>::empty());
        }
        r
    }

    /// Feeds one record, in input order.  Fails exactly when the record's
    /// key is known with a different size; the error carries this
    /// record's path and the first-seen path of the key.
    pub fn add_record(&mut self, record: &Record) -> (r: Result<(), PipelineError>)
        ensures
            match grouper_step(old(self)@, record@) {
                Ok(es) => r is Ok && final(self)@ == es,
                Err(pair) => r matches Err(e) && final(self)@ == old(self)@ && (
                e matches PipelineError::Integrity { path, other_path } && path@ == pair.0
                    && other_path@ == pair.1),
            },
    {
        proof {
            lemma_find_key_props(self@, record@.hash);
        }
        let n = self.entries.len();
        let mut j: usize = 0;
        while j < n
            invariant
                0 <= j <= n,
                n == self.entries@.len(),
                self@.len() == n,
                self@ == old(self)@,
                forall|k: int| 0 <= k < j ==> (#[trigger] self@[k]).key != record@.hash,
            decreases n - j,
        {
            if str_eq(self.entries[j].key.as_str(), record.hash.as_str()) {
                assert(self@[j as int].key == record@.hash);
                assert(find_key(self@, record@.hash) == j) by {
                    lemma_find_key_props(self@, record@.hash);
                }
                if self.entries[j].size != record.size {
                    let other = self.entries[j].first_path.clone();
                    return Err(
                        PipelineError::Integrity {
                            path: record.path.clone(),
                            other_path: other,
                        },
                    );
                }
                let ghost before = self@;
                let path = record.path.clone();
                self.entries[j].dup_paths.push(path);
                proof {
                    let e_new = self.entries@[j as int]@;
                    let e_old = before[j as int];
                    assert(str_views(self.entries@[j as int].dup_paths@) =~= e_old.dup_paths.push(
                        record@.path,
                    ));
                    assert(self@ =~= before.update(
                        j as int,
                        GroupEntryV {
                            key: e_old.key,
                            first_path: e_old.first_path,
                            size: e_old.size,
                            dup_paths: e_old.dup_paths.push(record@.path),
                        },
                    ));
                }
                return Ok(());
            }
            j = j + 1;
        }
        assert(find_key(self@, record@.hash) == -1) by {
            lemma_find_key_props(self@, record@.hash);
        }
        let ghost before = self@;
        let entry = GroupEntry {
            key: record.hash.clone(),
            first_path: record.path.clone(),
            size: record.size,
            dup_paths: Vec::new(),
        };
        proof {
            assert(entry@.dup_paths =~= Seq::<Seq<char>>::empty());
        }
        self.entries.push(entry);
        proof {
            assert(self@ =~= before.push(
                GroupEntryV {
                    key: record@.hash,
                    first_path: record@.path,
                    size: record@.size,
                    dup_paths: Seq::empty(),
                },
            ));
        }
        Ok(())
    }

    /// Reads off every key with at least one duplicate as a group —
    /// first-seen path plus the repeats — sorted within each group and
    /// across groups.
    pub fn emit_sorted_groups(&self) -> (r: Vec<Vec<String>>)
        ensures
            group_views(r@) == canonical_groups_of(self@),
    {
        proof {
            lemma_group_leq_total();
        }
        let ghost sortf = |g: Seq<Seq<char>>| g.sort_by(lex_leq_fn());
        let mut out: Vec<Vec<String>> = Vec::new();
        proof {
            assert(group_views(out@) =~= Seq::<Seq<Seq<char>>>::empty());
            assert(self@.take(0) =~= Seq::<GroupEntryV>::empty());
            reveal(Seq::filter);
            assert(groups_of(self@.take(0)) =~= Seq::<Seq<Seq<char>>>::empty());
            assert(groups_of(self@.take(0)).map_values(sortf)
                =~= Seq::<Seq<Seq<char>>>::empty());
        }
        let n = self.entries.len();
        let mut k: usize = 0;
        while k < n
            invariant
                0 <= k <= n,
                n == self.entries@.len(),
                self@.len() == n,
                forall|m: int| 0 <= m < n ==> self@[m] == self.entries@[m]@,
                sorted_by(group_views(out@), group_leq_fn()),
                group_views(out@).to_multiset() == groups_of(self@.take(k as int)).map_values(
                    sortf,
                ).to_multiset(),
                total_ordering(group_leq_fn()),
                sortf == (|g: Seq<Seq<char>>| g.sort_by(lex_leq_fn())),
            decreases n - k,
        {
            let ghost prefix = groups_of(self@.take(k as int)).map_values(sortf);
            let entry = &self.entries[k];
            let ghost e = self@[k as int];
            proof {
                let t = self@.take(k + 1);
                assert(t.drop_last() =~= self@.take(k as int));
                assert(t.last() == e);
                reveal(Seq::filter);
            }
            if entry.dup_paths.len() > 0 {
                let mut raw: Vec<String> = Vec::new();
                raw.push(entry.first_path.clone());
                let nd = entry.dup_paths.len();
                let mut d: usize = 0;
                while d < nd
                    invariant
                        0 <= d <= nd,
                        nd == entry.dup_paths@.len(),
                        raw@.len() == d + 1,
                        raw@[0]@ == e.first_path,
                        forall|m: int| 1 <= m <= d ==> (#[trigger] raw@[m])@ == e.dup_paths[m - 1],
                        e.dup_paths == str_views(entry.dup_paths@),
                    decreases nd - d,
                {
                    raw.push(entry.dup_paths[d].clone());
                    d = d + 1;
                }
                proof {
                    assert(str_views(raw@) =~= members_of(e));
                }
                let sorted_group = sort_strings(&raw);
                assert(str_views(sorted_group@) == sortf(members_of(e)));
                insert_group_sorted(&mut out, sorted_group);
                proof {
                    let t = self@.take(k + 1);
                    assert(e.dup_paths.len() >= 1);
                    assert(t.filter(|x: GroupEntryV| x.dup_paths.len() >= 1)
                        == self@.take(k as int).filter(|x: GroupEntryV| x.dup_paths.len() >= 1)
                        .push(e)) by {
                        reveal(Seq::filter);
                    }
                    assert(groups_of(t).map_values(sortf) =~= prefix.push(sortf(members_of(e))));
                    vstd::seq_lib::to_multiset_build(prefix, sortf(members_of(e)));
                }
            } else {
                proof {
                    let t = self@.take(k + 1);
                    assert(!(e.dup_paths.len() >= 1));
                    assert(t.filter(|x: GroupEntryV| x.dup_paths.len() >= 1)
                        == self@.take(k as int).filter(|x: GroupEntryV| x.dup_paths.len() >= 1))
                        by {
                        reveal(Seq::filter);
                    }
                    assert(groups_of(t).map_values(sortf) =~= prefix);
                }
            }
            k = k + 1;
        }
        proof {
            assert(self@.take(n as int) =~= self@);
            let mapped = groups_of(self@).map_values(sortf);
            mapped.lemma_sort_by_ensures(group_leq_fn());
            lemma_sorted_unique(group_views(out@), mapped.sort_by(group_leq_fn()), group_leq_fn());
        }
        out
    }
}

/// Lexicographic comparison of two groups of owned strings.
fn vec_str_leq(a: &Vec<String>, b: &Vec<String>) -> (r: bool)
    ensures
        r == lex_leq_by(str_views(a@), str_views(b@), lex_leq_fn()),
{
    let n = a.len();
    let m = b.len();
    let mut i: usize = 0;
    loop
        invariant
            0 <= i <= n,
            i <= m,
            n == a@.len(),
            m == b@.len(),
            forall|j: int| 0 <= j < i ==> str_views(a@)[j] == str_views(b@)[j],
        decreases n - i,
    {
        proof {
            crate::text::lemma_lex_leq_by_common_prefix(
                str_views(a@),
                str_views(b@),
                lex_leq_fn(),
                i as int,
            );
        }
        let ghost ta = str_views(a@).subrange(i as int, a@.len() as int);
        let ghost tb = str_views(b@).subrange(i as int, b@.len() as int);
        if i == n {
            assert(ta.len() == 0);
            return true;
        }
        if i == m {
            assert(tb.len() == 0 && ta.len() > 0);
            return false;
        }
        if !str_eq(a[i].as_str(), b[i].as_str()) {
            assert(ta[0] == a@[i as int]@ && tb[0] == b@[i as int]@);
            assert(ta[0] != tb[0]);
            let le = str_leq(a[i].as_str(), b[i].as_str());
            assert(le == lex_leq_fn()(ta[0], tb[0]));
            return le;
        }
        i = i + 1;
    }
}

/// Inserts one group into an already sorted vector of groups, keeping it
/// sorted.
fn insert_group_sorted(out: &mut Vec<Vec<String>>, g: Vec<String>)
    requires
        sorted_by(group_views(old(out)@), group_leq_fn()),
    ensures
        sorted_by(group_views(final(out)@), group_leq_fn()),
        group_views(final(out)@).to_multiset() == group_views(old(out)@).to_multiset().insert(
            str_views(g@),
        ),
{
    proof {
        lemma_group_leq_total();
    }
    let mut pos: usize = 0;
    while pos < out.len() && vec_str_leq(&out[pos], &g)
        invariant
            0 <= pos <= out@.len(),
            sorted_by(group_views(out@), group_leq_fn()),
            out@ == old(out)@,
            forall|j: int|
                0 <= j < pos ==> group_leq_fn()(#[trigger] group_views(out@)[j], str_views(g@)),
            total_ordering(group_leq_fn()),
        decreases out@.len() - pos,
    {
        assert(group_leq_fn()(group_views(out@)[pos as int], str_views(g@)));
        pos = pos + 1;
    }
    let ghost before = out@;
    proof {
        if pos < out@.len() {
            let f = group_leq_fn();
            let vpos = group_views(out@)[pos as int];
            assert(!f(vpos, str_views(g@)));
            assert(f(vpos, str_views(g@)) || f(str_views(g@), vpos));
        }
    }
    let ghost gv = str_views(g@);
    out.insert(pos, g);
    proof {
        let f = group_leq_fn();
        let nv = group_views(out@);
        let ov = group_views(before);
        assert(nv =~= ov.insert(pos as int, gv));
        assert forall|i: int, j: int| 0 <= i < j < nv.len() implies f(nv[i], nv[j]) by {
            if i < pos && j == pos {
                assert(nv[i] == ov[i] && nv[j] == gv);
            } else if i == pos && j > pos {
                assert(nv[i] == gv && nv[j] == ov[j - 1]);
                if pos < ov.len() {
                    assert(f(gv, ov[pos as int]));
                    if j - 1 > pos {
                        assert(f(ov[pos as int], ov[j - 1]));
                    }
                }
            } else if i < pos && j > pos {
                assert(nv[i] == ov[i] && nv[j] == ov[j - 1]);
                if pos < ov.len() {
                    assert(f(ov[i], gv));
                    assert(f(gv, ov[pos as int]));
                    if j - 1 == pos {
                    } else {
                        assert(f(ov[pos as int], ov[j - 1]));
                    }
                    assert(f(ov[i], ov[j - 1]));
                }
            } else {
                assert(i != pos && j != pos);
                let oi = if i < pos {
                    i
                } else {
                    i - 1
                };
                let oj = if j < pos {
                    j
                } else {
                    j - 1
                };
                assert(nv[i] == ov[oi] && nv[j] == ov[oj]);
                assert(0 <= oi < oj < ov.len());
            }
        }
        assert(nv.remove(pos as int) =~= ov);
        vstd::seq_lib::to_multiset_remove(nv, pos as int);
        assert(nv[pos as int] == gv);
        nv.to_multiset_ensures();
        assert(nv.to_multiset().count(gv) > 0) by {
            assert(nv.contains(gv));
        }
        assert(nv.to_multiset() =~= ov.to_multiset().insert(gv)) by {
            assert(ov.to_multiset() == nv.to_multiset().remove(gv));
        }
    }
}

/// Groups the records of one run by hash key.  Succeeds with the
/// canonical duplicate groups exactly when no two records share a hash at
/// different sizes; the first collision otherwise, with no groups emitted.
pub fn group_records(records: &Vec<Record>) -> (r: Result<Vec<Vec<String>>, PipelineError>)
    ensures
        r is Ok <==> run_grouper(record_views(records@)) is Ok,
        r matches Ok(gs) ==> grouped_records(record_views(records@)) == Ok::<
            _,
            (Seq<char>, Seq<char>),
        >(group_views(gs@)),
        r matches Err(e) ==> e matches PipelineError::Integrity { path, other_path }
            && run_grouper(record_views(records@)) == Err::<Seq<GroupEntryV>, _>(
            (path@, other_path@),
        ),
{
    let ghost rv = record_views(records@);
    let mut grouper = Grouper::new();
    proof {
        assert(rv.take(0) =~= Seq::<RecordV>::empty());
    }
    let n = records.len();
    let mut i: usize = 0;
    while i < n
        invariant
            0 <= i <= n,
            n == records@.len(),
            rv == record_views(records@),
            rv.len() == n,
            run_grouper(rv.take(i as int)) == Ok::<_, (Seq<char>, Seq<char>)>(grouper@),
        decreases n - i,
    {
        proof {
            let t = rv.take(i + 1);
            assert(t.drop_last() =~= rv.take(i as int));
            assert(t.last() == records@[i as int]@);
        }
        match grouper.add_record(&records[i]) {
            Ok(()) => {
                assert(run_grouper(rv.take(i + 1)) == Ok::<_, (Seq<char>, Seq<char>)>(grouper@));
            },
            Err(e) => {
                proof {
                    assert(run_grouper(rv.take(i + 1)) is Err);
                    lemma_run_err_persists(rv, i + 1);
                }
                return Err(e);
            },
        }
        i = i + 1;
    }
    proof {
        assert(rv.take(n as int) =~= rv);
    }
    let groups = grouper.emit_sorted_groups();
    Ok(groups)
}

/// One path in quotes.
pub open spec fn quoted(p: Seq<char>) -> Seq<char> {
    seq!['"'] + p + seq!['"']
}

/// A group's paths, quoted and comma-separated.
pub open spec fn joined_paths(g: Seq<Seq<char>>) -> Seq<char>
    decreases g.len(),
{
    if g.len() == 0 {
        Seq::<char>::empty()
    } else if g.len() == 1 {
        quoted(g[0])
    } else {
        joined_paths(g.drop_last()) + seq![',', ' '] + quoted(g.last())
    }
}

/// One group as an indented bracketed line.
pub open spec fn rendered_group(g: Seq<Seq<char>>) -> Seq<char> {
    seq!['\t', '['] + joined_paths(g) + seq![']']
}

/// All groups, one line each, comma-separated.
pub open spec fn joined_groups(gs: Seq<Seq<Seq<char>>>) -> Seq<char>
    decreases gs.len(),
{
    if gs.len() == 0 {
        Seq::<char>::empty()
    } else if gs.len() == 1 {
        rendered_group(gs[0])
    } else {
        joined_groups(gs.drop_last()) + seq![',', '\n'] + rendered_group(gs.last())
    }
}

/// The duplicate-group export text: a bracketed sequence of groups, each
/// a bracketed, comma-separated sequence of quoted paths.
pub open spec fn rendered_groups(gs: Seq<Seq<Seq<char>>>) -> Seq<char> {
    seq!['[', '\n'] + joined_groups(gs) + seq!['\n', ']', '\n']
}

/// Renders duplicate groups in the export format.
pub fn render_groups(groups: &Vec<Vec<String>>) -> (r: String)
    ensures
        r@ == rendered_groups(group_views(groups@)),
{
    let ghost gv = group_views(groups@);
    let mut out = String::new();
    push_char(&mut out, '[');
    push_char(&mut out, '\n');
    proof {
        assert(gv.take(0) =~= Seq::<Seq<Seq<char>>>::empty());
        assert(out@ =~= seq!['[', '\n'] + joined_groups(gv.take(0)));
    }
    let n = groups.len();
    let mut gi: usize = 0;
    while gi < n
        invariant
            0 <= gi <= n,
            n == groups@.len(),
            gv == group_views(groups@),
            out@ == seq!['[', '\n'] + joined_groups(gv.take(gi as int)),
        decreases n - gi,
    {
        if gi > 0 {
            push_char(&mut out, ',');
            push_char(&mut out, '\n');
        }
        push_char(&mut out, '\t');
        push_char(&mut out, '[');
        let ghost line_start = out@;
        let group = &groups[gi];
        let ghost g = gv[gi as int];
        let m = group.len();
        let mut pi: usize = 0;
        while pi < m
            invariant
                0 <= pi <= m,
                m == group@.len(),
                g == str_views(group@),
                out@ == line_start + joined_paths(g.take(pi as int)),
            decreases m - pi,
        {
            if pi > 0 {
                push_char(&mut out, ',');
                push_char(&mut out, ' ');
            }
            push_char(&mut out, '"');
            out.append(group[pi].as_str());
            push_char(&mut out, '"');
            proof {
                let t = g.take(pi + 1);
                assert(t.last() == g[pi as int]);
                if pi == 0 {
                    assert(t.len() == 1);
                    assert(out@ =~= line_start + joined_paths(t));
                } else {
                    assert(t.drop_last() =~= g.take(pi as int));
                    assert(out@ =~= line_start + joined_paths(t));
                }
            }
            pi = pi + 1;
        }
        push_char(&mut out, ']');
        proof {
            assert(g.take(m as int) =~= g);
            let t = gv.take(gi + 1);
            assert(t.last() == g);
            if gi == 0 {
                assert(t.len() == 1);
                assert(out@ =~= seq!['[', '\n'] + joined_groups(t));
            } else {
                assert(t.drop_last() =~= gv.take(gi as int));
                assert(out@ =~= seq!['[', '\n'] + joined_groups(t));
            }
        }
        gi = gi + 1;
    }
    push_char(&mut out, '\n');
    push_char(&mut out, ']');
    push_char(&mut out, '\n');
    proof {
        assert(gv.take(n as int) =~= gv);
        assert(out@ =~= rendered_groups(gv));
    }
    out
}

/// The paths of a record list, in order.
pub open spec fn paths_of(records: Seq<RecordV>) -> Seq<Seq<char>> {
    records.map_values(|r: RecordV| r.path)
}

/// The records carrying hash `h`, in input order.
pub open spec fn with_hash_key(records: Seq<RecordV>, h: Seq<char>) -> Seq<RecordV> {
    records.filter(|r: RecordV| r.hash == h)
}

/// Two records somewhere in the list share a hash at different sizes.
pub open spec fn has_collision(records: Seq<RecordV>) -> bool {
    exists|i: int, j: int|
        0 <= i < j < records.len() && (#[trigger] records[i]).hash == (#[trigger] records[j]).hash
            && records[i].size != records[j].size
}

proof fn lemma_with_hash_key_push(rs: Seq<RecordV>, r: RecordV, h: Seq<char>)
    ensures
        with_hash_key(rs.push(r), h) == if r.hash == h {
            with_hash_key(rs, h).push(r)
        } else {
            with_hash_key(rs, h)
        },
{
    reveal(Seq::filter);
    assert(rs.push(r).drop_last() =~= rs);
    assert(rs.push(r).last() == r);
}

proof fn lemma_with_hash_key_all_false(rs: Seq<RecordV>, h: Seq<char>)
    requires
        forall|i: int| 0 <= i < rs.len() ==> (#[trigger] rs[i]).hash != h,
    ensures
        with_hash_key(rs, h) == Seq::<RecordV>::empty(),
    decreases rs.len(),
{
    reveal(Seq::filter);
    if rs.len() > 0 {
        assert(forall|i: int| 0 <= i < rs.len() - 1 ==> rs.drop_last()[i] == rs[i]);
        lemma_with_hash_key_all_false(rs.drop_last(), h);
        let prev = rs.drop_last();
        assert(rs =~= prev.push(rs.last()));
        lemma_with_hash_key_push(prev, rs.last(), h);
    }
}

proof fn lemma_with_hash_key_subset(rs: Seq<RecordV>, h: Seq<char>)
    ensures
        forall|i: int|
            0 <= i < with_hash_key(rs, h).len() ==> (#[trigger] with_hash_key(rs, h)[i]).hash == h
                && rs.contains(with_hash_key(rs, h)[i]),
    decreases rs.len(),
{
    if rs.len() > 0 {
        let prev = rs.drop_last();
        lemma_with_hash_key_subset(prev, h);
        assert(rs =~= prev.push(rs.last()));
        lemma_with_hash_key_push(prev, rs.last(), h);
        assert forall|i: int| 0 <= i < with_hash_key(rs, h).len() implies (#[trigger] with_hash_key(
            rs,
            h,
        )[i]).hash == h && rs.contains(with_hash_key(rs, h)[i]) by {
            let w = with_hash_key(rs, h);
            let wp = with_hash_key(prev, h);
            if i < wp.len() {
                assert(w[i] == wp[i]);
                let j = choose|j: int| 0 <= j < prev.len() && prev[j] == wp[i];
                assert(rs[j] == wp[i]);
            } else {
                assert(w[i] == rs.last());
                assert(rs[rs.len() - 1] == rs.last());
            }
        }
    }
}

/// What a grouper state says about the records it has seen: each entry
/// holds, in input order, exactly the paths of the records with its key;
/// every such record has the entry's size; keys are unique; and every
/// record's key has an entry.
pub open spec fn entries_describe(records: Seq<RecordV>, entries: Seq<GroupEntryV>) -> bool {
    &&& (forall|k: int|
        0 <= k < entries.len() ==> members_of(#[trigger] entries[k]) == paths_of(
            with_hash_key(records, entries[k].key),
        ))
    &&& (forall|k: int, i: int|
        0 <= k < entries.len() && 0 <= i < records.len() && (#[trigger] records[i]).hash == (
        #[trigger] entries[k]).key ==> records[i].size == entries[k].size)
    &&& (forall|k1: int, k2: int|
        0 <= k1 < k2 < entries.len() ==> (#[trigger] entries[k1]).key != (
        #[trigger] entries[k2]).key)
    &&& (forall|i: int|
        0 <= i < records.len() ==> find_key(entries, (#[trigger] records[i]).hash) != -1)
}

/// The grouper's state invariant, and when it faults: a successful run
/// describes its input as `entries_describe` says, and the run faults
/// exactly when two records share a hash at different sizes.
pub proof fn lemma_run_grouper_characterization(records: Seq<RecordV>)
    ensures
        run_grouper(records) matches Ok(entries) ==> entries_describe(records, entries),
        run_grouper(records) is Err <==> has_collision(records),
    decreases records.len(),
{
    if records.len() == 0 {
        assert(!has_collision(records));
        let entries = run_grouper(records)->Ok_0;
        assert(entries.len() == 0);
    } else {
        let rs = records.drop_last();
        let r = records.last();
        lemma_run_grouper_characterization(rs);
        assert(records =~= rs.push(r));
        assert(forall|i: int| 0 <= i < rs.len() ==> records[i] == rs[i]);
        match run_grouper(rs) {
            Err(e) => {
                assert(run_grouper(records) is Err);
                assert(has_collision(rs));
                let (i, j) = choose|i: int, j: int|
                    0 <= i < j < rs.len() && (#[trigger] rs[i]).hash == (#[trigger] rs[j]).hash
                        && rs[i].size != rs[j].size;
                assert(records[i].hash == records[j].hash && records[i].size != records[j].size);
                assert(has_collision(records));
            },
            Ok(entries) => {
                lemma_find_key_props(entries, r.hash);
                let fk = find_key(entries, r.hash);
                let last = records.len() - 1;
                assert(records[last] == r);
                if fk == -1 {
                    assert forall|i: int| 0 <= i < rs.len() implies (#[trigger] rs[i]).hash
                        != r.hash by {
                        if rs[i].hash == r.hash {
                            assert(find_key(entries, rs[i].hash) != -1);
                        }
                    }
                    let new_e = GroupEntryV {
                        key: r.hash,
                        first_path: r.path,
                        size: r.size,
                        dup_paths: Seq::empty(),
                    };
                    let entries2 = entries.push(new_e);
                    assert(run_grouper(records) == Ok::<_, (Seq<char>, Seq<char>)>(entries2));
                    assert(!has_collision(records)) by {
                        if has_collision(records) {
                            let (i, j) = choose|i: int, j: int|
                                0 <= i < j < records.len() && (#[trigger] records[i]).hash == (
                                #[trigger] records[j]).hash && records[i].size
                                    != records[j].size;
                            if j < rs.len() {
                                assert(has_collision(rs));
                            } else {
                                assert(records[j] == r);
                                assert(rs[i].hash == r.hash);
                            }
                            assert(false);
                        }
                    }
                    assert forall|k: int| 0 <= k < entries2.len() implies members_of(
                        #[trigger] entries2[k],
                    ) == paths_of(with_hash_key(records, entries2[k].key)) by {
                        if k < entries.len() {
                            assert(entries2[k] == entries[k]);
                            assert(entries[k].key != r.hash);
                            lemma_with_hash_key_push(rs, r, entries[k].key);
                            assert(with_hash_key(records, entries[k].key) == with_hash_key(
                                rs,
                                entries[k].key,
                            ));
                        } else {
                            assert(entries2[k] == new_e);
                            lemma_with_hash_key_all_false(rs, r.hash);
                            lemma_with_hash_key_push(rs, r, r.hash);
                            assert(with_hash_key(records, r.hash) =~= seq![r]);
                            assert(members_of(new_e) =~= seq![r.path]);
                            assert(paths_of(seq![r]) =~= seq![r.path]);
                        }
                    }
                    assert forall|k: int, i: int|
                        0 <= k < entries2.len() && 0 <= i < records.len() && (
                        #[trigger] records[i]).hash == (#[trigger] entries2[k]).key implies
                        records[i].size == entries2[k].size by {
                        if k < entries.len() {
                            assert(entries2[k] == entries[k]);
                            if i < rs.len() {
                                assert(rs[i].hash == entries[k].key);
                            } else {
                                assert(records[i] == r);
                                assert(entries[k].key != r.hash);
                            }
                        } else {
                            assert(entries2[k] == new_e);
                            if i < rs.len() {
                                assert(rs[i].hash != r.hash);
                            }
                        }
                    }
                    assert forall|i: int| 0 <= i < records.len() implies find_key(
                        entries2,
                        (#[trigger] records[i]).hash,
                    ) != -1 by {
                        lemma_find_key_props(entries2, records[i].hash);
                        if i < rs.len() {
                            lemma_find_key_props(entries, rs[i].hash);
                            let k = find_key(entries, rs[i].hash);
                            assert(k != -1);
                            assert(entries2[k].key == records[i].hash);
                        } else {
                            assert(entries2[entries.len() as int].key == r.hash);
                        }
                    }
                } else {
                    assert(0 <= fk < entries.len());
                    assert(entries[fk].key == r.hash);
                    if entries[fk].size != r.size {
                        assert(run_grouper(records) is Err);
                        assert(members_of(entries[fk]) == paths_of(
                            with_hash_key(rs, entries[fk].key),
                        ));
                        assert(members_of(entries[fk]).len() >= 1);
                        let w = with_hash_key(rs, entries[fk].key);
                        assert(w.len() >= 1);
                        lemma_with_hash_key_subset(rs, entries[fk].key);
                        assert(w[0].hash == entries[fk].key && rs.contains(w[0]));
                        let i = choose|i: int| 0 <= i < rs.len() && rs[i] == w[0];
                        assert(records[i].hash == entries[fk].key);
                        assert(records[i].size == entries[fk].size);
                        assert(records[i].hash == records[last].hash && records[i].size
                            != records[last].size);
                        assert(has_collision(records));
                    } else {
                        let upd = GroupEntryV {
                            key: entries[fk].key,
                            first_path: entries[fk].first_path,
                            size: entries[fk].size,
                            dup_paths: entries[fk].dup_paths.push(r.path),
                        };
                        let entries2 = entries.update(fk, upd);
                        assert(run_grouper(records) == Ok::<_, (Seq<char>, Seq<char>)>(entries2));
                        assert(forall|k: int|
                            0 <= k < entries.len() ==> (#[trigger] entries2[k]).key
                                == entries[k].key && entries2[k].size == entries[k].size);
                        assert(!has_collision(records)) by {
                            if has_collision(records) {
                                let (i, j) = choose|i: int, j: int|
                                    0 <= i < j < records.len() && (#[trigger] records[i]).hash == (
                                    #[trigger] records[j]).hash && records[i].size
                                        != records[j].size;
                                if j < rs.len() {
                                    assert(has_collision(rs));
                                } else {
                                    assert(records[j] == r);
                                    assert(rs[i].hash == r.hash);
                                    assert(rs[i].hash == entries[fk].key);
                                    assert(rs[i].size == entries[fk].size);
                                }
                                assert(false);
                            }
                        }
                        assert forall|k: int| 0 <= k < entries2.len() implies members_of(
                            #[trigger] entries2[k],
                        ) == paths_of(with_hash_key(records, entries2[k].key)) by {
                            lemma_with_hash_key_push(rs, r, entries2[k].key);
                            if k != fk {
                                assert(entries2[k] == entries[k]);
                                if k < fk {
                                    assert(entries[k].key != entries[fk].key);
                                } else {
                                    assert(entries[fk].key != entries[k].key);
                                }
                                assert(entries[k].key != r.hash);
                                assert(with_hash_key(records, entries[k].key) == with_hash_key(
                                    rs,
                                    entries[k].key,
                                ));
                            } else {
                                assert(entries2[fk] == upd);
                                assert(with_hash_key(records, upd.key) == with_hash_key(
                                    rs,
                                    upd.key,
                                ).push(r));
                                assert(members_of(upd) =~= members_of(entries[fk]).push(r.path));
                                assert(paths_of(with_hash_key(rs, upd.key).push(r)) =~= paths_of(
                                    with_hash_key(rs, upd.key),
                                ).push(r.path));
                            }
                        }
                        assert forall|k: int, i: int|
                            0 <= k < entries2.len() && 0 <= i < records.len() && (
                            #[trigger] records[i]).hash == (#[trigger] entries2[k]).key implies
                            records[i].size == entries2[k].size by {
                            if i < rs.len() {
                                assert(rs[i].hash == entries[k].key);
                            } else {
                                assert(records[i] == r);
                                assert(entries2[k].key == r.hash);
                                if k != fk {
                                    if k < fk {
                                        assert(entries[k].key != entries[fk].key);
                                    } else {
                                        assert(entries[fk].key != entries[k].key);
                                    }
                                    assert(false);
                                } else {
                                    assert(entries2[k].size == r.size);
                                }
                            }
                        }
                        assert forall|k1: int, k2: int| 0 <= k1 < k2 < entries2.len() implies (
                        #[trigger] entries2[k1]).key != (#[trigger] entries2[k2]).key by {
                            assert(entries[k1].key != entries[k2].key);
                        }
                        assert forall|i: int| 0 <= i < records.len() implies find_key(
                            entries2,
                            (#[trigger] records[i]).hash,
                        ) != -1 by {
                            lemma_find_key_props(entries2, records[i].hash);
                            if i < rs.len() {
                                lemma_find_key_props(entries, rs[i].hash);
                                let k = find_key(entries, rs[i].hash);
                                assert(k != -1);
                                assert(entries2[k].key == records[i].hash);
                            } else {
                                assert(entries2[fk].key == r.hash);
                            }
                        }
                    }
                }
            },
        }
    }
}

proof fn lemma_with_hash_key_complete(rs: Seq<RecordV>, h: Seq<char>)
    ensures
        forall|i: int|
            0 <= i < rs.len() && (#[trigger] rs[i]).hash == h ==> with_hash_key(rs, h).contains(
                rs[i],
            ),
    decreases rs.len(),
{
    if rs.len() > 0 {
        let prev = rs.drop_last();
        lemma_with_hash_key_complete(prev, h);
        assert(rs =~= prev.push(rs.last()));
        lemma_with_hash_key_push(prev, rs.last(), h);
        assert forall|i: int| 0 <= i < rs.len() && (#[trigger] rs[i]).hash == h implies
            with_hash_key(rs, h).contains(rs[i]) by {
            let w = with_hash_key(rs, h);
            let wp = with_hash_key(prev, h);
            if i < rs.len() - 1 {
                assert(prev[i] == rs[i]);
                assert(wp.contains(rs[i]));
                let m = choose|m: int| 0 <= m < wp.len() && wp[m] == rs[i];
                assert(w[m] == rs[i]);
            } else {
                assert(rs[i] == rs.last());
                assert(w[w.len() - 1] == rs.last());
            }
        }
    }
}

proof fn lemma_dup_entries_push(entries: Seq<GroupEntryV>, e: GroupEntryV)
    ensures
        dup_entries(entries.push(e)) == if e.dup_paths.len() >= 1 {
            dup_entries(entries).push(e)
        } else {
            dup_entries(entries)
        },
{
    reveal(Seq::filter);
    assert(entries.push(e).drop_last() =~= entries);
    assert(entries.push(e).last() == e);
}

proof fn lemma_dup_entries_subset(entries: Seq<GroupEntryV>)
    ensures
        forall|m: int|
            0 <= m < dup_entries(entries).len() ==> entries.contains(
                #[trigger] dup_entries(entries)[m],
            ) && dup_entries(entries)[m].dup_paths.len() >= 1,
    decreases entries.len(),
{
    if entries.len() > 0 {
        let prev = entries.drop_last();
        lemma_dup_entries_subset(prev);
        assert(entries =~= prev.push(entries.last()));
        lemma_dup_entries_push(prev, entries.last());
        assert forall|m: int| 0 <= m < dup_entries(entries).len() implies entries.contains(
            #[trigger] dup_entries(entries)[m],
        ) && dup_entries(entries)[m].dup_paths.len() >= 1 by {
            let d = dup_entries(entries);
            let dp = dup_entries(prev);
            if m < dp.len() {
                assert(d[m] == dp[m]);
                let k = choose|k: int| 0 <= k < prev.len() && prev[k] == dp[m];
                assert(entries[k] == dp[m]);
            } else {
                assert(d[m] == entries.last());
                assert(entries[entries.len() - 1] == entries.last());
            }
        }
    }
}

proof fn lemma_dup_entries_complete(entries: Seq<GroupEntryV>, k: int)
    requires
        0 <= k < entries.len(),
        entries[k].dup_paths.len() >= 1,
    ensures
        dup_entries(entries).contains(entries[k]),
    decreases entries.len(),
{
    let prev = entries.drop_last();
    assert(entries =~= prev.push(entries.last()));
    lemma_dup_entries_push(prev, entries.last());
    if k < entries.len() - 1 {
        lemma_dup_entries_complete(prev, k);
        let m = choose|m: int| 0 <= m < dup_entries(prev).len() && dup_entries(prev)[m] == prev[k];
        assert(dup_entries(entries)[m] == entries[k]);
    } else {
        let d = dup_entries(entries);
        assert(d[d.len() - 1] == entries[k]);
    }
}

/// With pairwise distinct keys in `entries`, distinct positions of
/// `dup_entries` carry distinct keys.
proof fn lemma_dup_entries_distinct_keys(entries: Seq<GroupEntryV>)
    requires
        forall|k1: int, k2: int|
            0 <= k1 < k2 < entries.len() ==> (#[trigger] entries[k1]).key != (
            #[trigger] entries[k2]).key,
    ensures
        forall|m1: int, m2: int|
            0 <= m1 < m2 < dup_entries(entries).len() ==> (#[trigger] dup_entries(
                entries,
            )[m1]).key != (#[trigger] dup_entries(entries)[m2]).key,
    decreases entries.len(),
{
    if entries.len() > 0 {
        let prev = entries.drop_last();
        assert(forall|i: int| 0 <= i < prev.len() ==> prev[i] == entries[i]);
        lemma_dup_entries_distinct_keys(prev);
        lemma_dup_entries_subset(prev);
        assert(entries =~= prev.push(entries.last()));
        lemma_dup_entries_push(prev, entries.last());
        assert forall|m1: int, m2: int|
            0 <= m1 < m2 < dup_entries(entries).len() implies (#[trigger] dup_entries(
            entries,
        )[m1]).key != (#[trigger] dup_entries(entries)[m2]).key by {
            let d = dup_entries(entries);
            let dp = dup_entries(prev);
            if m2 < dp.len() {
                assert(d[m1] == dp[m1] && d[m2] == dp[m2]);
            } else {
                assert(d[m2] == entries.last());
                assert(d[m1] == dp[m1]);
                let k = choose|k: int| 0 <= k < prev.len() && prev[k] == dp[m1];
                assert(entries[k].key == dp[m1].key);
                assert(entries[k].key != entries[entries.len() - 1].key);
            }
        }
    }
}

/// A path among an entry's members names a record with that entry's key,
/// and the other way round.
proof fn lemma_member_iff(records: Seq<RecordV>, entries: Seq<GroupEntryV>, k: int)
    requires
        entries_describe(records, entries),
        0 <= k < entries.len(),
    ensures
        forall|p: Seq<char>|
            #[trigger] members_of(entries[k]).contains(p) <==> exists|i: int|
                0 <= i < records.len() && (#[trigger] records[i]).path == p && records[i].hash
                    == entries[k].key,
{
    let h = entries[k].key;
    let w = with_hash_key(records, h);
    lemma_with_hash_key_subset(records, h);
    lemma_with_hash_key_complete(records, h);
    assert(members_of(entries[k]) == paths_of(w));
    assert forall|p: Seq<char>| #[trigger] members_of(entries[k]).contains(p) implies exists|
        i: int,
    |
        0 <= i < records.len() && (#[trigger] records[i]).path == p && records[i].hash == h by {
        let m = choose|m: int| 0 <= m < paths_of(w).len() && paths_of(w)[m] == p;
        assert(w[m].path == p && w[m].hash == h);
        assert(records.contains(w[m]));
        let i = choose|i: int| 0 <= i < records.len() && records[i] == w[m];
        assert(records[i].path == p && records[i].hash == h);
    }
    assert forall|p: Seq<char>|
        (exists|i: int|
            0 <= i < records.len() && (#[trigger] records[i]).path == p && records[i].hash
                == h) implies #[trigger] members_of(entries[k]).contains(p) by {
        let i = choose|i: int|
            0 <= i < records.len() && (#[trigger] records[i]).path == p && records[i].hash == h;
        assert(w.contains(records[i]));
        let m = choose|m: int| 0 <= m < w.len() && w[m] == records[i];
        assert(paths_of(w)[m] == p);
        assert(members_of(entries[k]).contains(p));
    }
}

/// Sorting a group neither adds nor loses a member.
proof fn lemma_sorted_group_contains(g: Seq<Seq<char>>)
    ensures
        forall|p: Seq<char>|
            #[trigger] g.sort_by(lex_leq_fn()).contains(p) <==> g.contains(p),
{
    lemma_lex_leq_total();
    g.lemma_sort_by_ensures(lex_leq_fn());
    let sorted = g.sort_by(lex_leq_fn());
    g.to_multiset_ensures();
    sorted.to_multiset_ensures();
    assert forall|p: Seq<char>|
        #[trigger] sorted.contains(p) == g.contains(p) by {
        assert(g.contains(p) <==> g.to_multiset().count(p) > 0);
        assert(sorted.contains(p) <==> sorted.to_multiset().count(p) > 0);
    }
}

/// Every canonical group is a sorted duplicate-entry member list, and
/// every such member list appears canonically.
proof fn lemma_canonical_correspondence(entries: Seq<GroupEntryV>)
    ensures
        canonical_groups_of(entries).to_multiset() == groups_of(entries).map_values(
            |g: Seq<Seq<char>>| g.sort_by(lex_leq_fn()),
        ).to_multiset(),
{
    lemma_group_leq_total();
    let mapped = groups_of(entries).map_values(|g: Seq<Seq<char>>| g.sort_by(lex_leq_fn()));
    mapped.lemma_sort_by_ensures(group_leq_fn());
}

/// Records that agree in size and hash land together: one canonical group
/// holds both their paths.
pub proof fn lemma_equal_keys_share_group(records: Seq<RecordV>, i: int, j: int)
    requires
        run_grouper(records) is Ok,
        forall|a: int, b: int|
            0 <= a < b < records.len() ==> (#[trigger] records[a]).path != (
            #[trigger] records[b]).path,
        0 <= i < records.len(),
        0 <= j < records.len(),
        i != j,
        records[i].hash == records[j].hash,
        records[i].size == records[j].size,
    ensures
        ({
            let gs = grouped_records(records)->Ok_0;
            exists|k: int|
                0 <= k < gs.len() && (#[trigger] gs[k]).contains(records[i].path)
                    && gs[k].contains(records[j].path)
        }),
{
    let entries = run_grouper(records)->Ok_0;
    lemma_run_grouper_characterization(records);
    let h = records[i].hash;
    lemma_find_key_props(entries, h);
    let fk = find_key(entries, h);
    assert(fk != -1);
    let e = entries[fk];
    assert(e.key == h);
    lemma_member_iff(records, entries, fk);
    assert(members_of(e).contains(records[i].path));
    assert(members_of(e).contains(records[j].path));
    // both records sit in the key's record list, so the entry has a duplicate
    let w = with_hash_key(records, h);
    lemma_with_hash_key_complete(records, h);
    assert(w.contains(records[i]) && w.contains(records[j]));
    assert(records[i].path != records[j].path) by {
        if i < j {
        } else {
            assert(records[j].path != records[i].path);
        }
    }
    assert(records[i] != records[j]);
    assert(w.len() >= 2) by {
        let a = choose|a: int| 0 <= a < w.len() && w[a] == records[i];
        let b = choose|b: int| 0 <= b < w.len() && w[b] == records[j];
        assert(a != b);
    }
    assert(members_of(e).len() == paths_of(w).len());
    assert(e.dup_paths.len() >= 1);
    lemma_dup_entries_complete(entries, fk);
    let d = dup_entries(entries);
    let m = choose|m: int| 0 <= m < d.len() && d[m] == e;
    let sortf = |g: Seq<Seq<char>>| g.sort_by(lex_leq_fn());
    let mapped = groups_of(entries).map_values(sortf);
    assert(groups_of(entries)[m] == members_of(e));
    assert(mapped[m] == sortf(members_of(e)));
    lemma_canonical_correspondence(entries);
    let gs = canonical_groups_of(entries);
    assert(mapped.contains(mapped[m]));
    mapped.to_multiset_ensures();
    gs.to_multiset_ensures();
    assert(mapped.to_multiset().count(mapped[m]) > 0);
    assert(gs.to_multiset().count(mapped[m]) > 0);
    assert(gs.contains(mapped[m]));
    let k = choose|k: int| 0 <= k < gs.len() && gs[k] == mapped[m];
    lemma_sorted_group_contains(members_of(e));
    assert(gs[k].contains(records[i].path) && gs[k].contains(records[j].path));
    assert(grouped_records(records)->Ok_0 == gs);
}

/// No path sits in two canonical groups.
pub proof fn lemma_groups_disjoint(records: Seq<RecordV>)
    requires
        run_grouper(records) is Ok,
        forall|a: int, b: int|
            0 <= a < b < records.len() ==> (#[trigger] records[a]).path != (
            #[trigger] records[b]).path,
    ensures
        ({
            let gs = grouped_records(records)->Ok_0;
            forall|k1: int, k2: int, p: Seq<char>|
                0 <= k1 < k2 < gs.len() ==> !(#[trigger] gs[k1].contains(p)
                    && #[trigger] gs[k2].contains(p))
        }),
{
    let entries = run_grouper(records)->Ok_0;
    lemma_run_grouper_characterization(records);
    let gs = canonical_groups_of(entries);
    let sortf = |g: Seq<Seq<char>>| g.sort_by(lex_leq_fn());
    let mapped = groups_of(entries).map_values(sortf);
    lemma_canonical_correspondence(entries);
    lemma_dup_entries_subset(entries);
    lemma_dup_entries_distinct_keys(entries);
    let d = dup_entries(entries);
    assert forall|k1: int, k2: int, p: Seq<char>|
        0 <= k1 < k2 < gs.len() implies !(#[trigger] gs[k1].contains(p) && #[trigger] gs[k2].contains(
        p,
    )) by {
        if gs[k1].contains(p) && gs[k2].contains(p) {
            gs.to_multiset_ensures();
            mapped.to_multiset_ensures();
            let mm = crate::seq_facts::lemma_two_positions_from_multiset(gs, mapped, k1, k2);
            let m1 = mm.0;
            let m2 = mm.1;
            assert(0 <= m1 < mapped.len() && 0 <= m2 < mapped.len() && m1 != m2);
            assert(mapped[m1].contains(p) && mapped[m2].contains(p));
            assert(mapped[m1] == sortf(members_of(d[m1])));
            assert(mapped[m2] == sortf(members_of(d[m2])));
            lemma_sorted_group_contains(members_of(d[m1]));
            lemma_sorted_group_contains(members_of(d[m2]));
            assert(members_of(d[m1]).contains(p) && members_of(d[m2]).contains(p));
            let k1e = choose|k: int| 0 <= k < entries.len() && entries[k] == d[m1];
            let k2e = choose|k: int| 0 <= k < entries.len() && entries[k] == d[m2];
            lemma_member_iff(records, entries, k1e);
            lemma_member_iff(records, entries, k2e);
            let i1 = choose|i: int|
                0 <= i < records.len() && (#[trigger] records[i]).path == p && records[i].hash
                    == entries[k1e].key;
            let i2 = choose|i: int|
                0 <= i < records.len() && (#[trigger] records[i]).path == p && records[i].hash
                    == entries[k2e].key;
            assert(i1 == i2) by {
                if i1 < i2 {
                    assert(records[i1].path != records[i2].path);
                } else if i2 < i1 {
                    assert(records[i2].path != records[i1].path);
                }
            }
            assert(d[m1].key == d[m2].key);
            if m1 < m2 {
                assert(d[m1].key != d[m2].key);
            } else {
                assert(d[m2].key != d[m1].key);
            }
        }
    }
}

/// Records that disagree in size or hash never share a canonical group.
pub proof fn lemma_unequal_keys_never_share(records: Seq<RecordV>, i: int, j: int)
    requires
        run_grouper(records) is Ok,
        forall|a: int, b: int|
            0 <= a < b < records.len() ==> (#[trigger] records[a]).path != (
            #[trigger] records[b]).path,
        0 <= i < records.len(),
        0 <= j < records.len(),
        i != j,
        records[i].hash != records[j].hash || records[i].size != records[j].size,
    ensures
        ({
            let gs = grouped_records(records)->Ok_0;
            forall|k: int|
                0 <= k < gs.len() ==> !((#[trigger] gs[k]).contains(records[i].path)
                    && gs[k].contains(records[j].path))
        }),
{
    let entries = run_grouper(records)->Ok_0;
    lemma_run_grouper_characterization(records);
    assert(records[i].hash != records[j].hash) by {
        if records[i].hash == records[j].hash {
            if i < j {
                assert(has_collision(records));
            } else {
                assert(has_collision(records));
            }
        }
    }
    let gs = canonical_groups_of(entries);
    let sortf = |g: Seq<Seq<char>>| g.sort_by(lex_leq_fn());
    let mapped = groups_of(entries).map_values(sortf);
    lemma_canonical_correspondence(entries);
    lemma_dup_entries_subset(entries);
    let d = dup_entries(entries);
    assert forall|k: int|
        0 <= k < gs.len() implies !((#[trigger] gs[k]).contains(records[i].path) && gs[k].contains(
        records[j].path)) by {
        if gs[k].contains(records[i].path) && gs[k].contains(records[j].path) {
            gs.to_multiset_ensures();
            mapped.to_multiset_ensures();
            assert(gs.contains(gs[k]));
            assert(gs.to_multiset().count(gs[k]) > 0);
            assert(mapped.to_multiset().count(gs[k]) > 0);
            assert(mapped.contains(gs[k]));
            let m = choose|m: int| 0 <= m < mapped.len() && mapped[m] == gs[k];
            assert(mapped[m] == sortf(members_of(d[m])));
            lemma_sorted_group_contains(members_of(d[m]));
            assert(members_of(d[m]).contains(records[i].path));
            assert(members_of(d[m]).contains(records[j].path));
            let ke = choose|kk: int| 0 <= kk < entries.len() && entries[kk] == d[m];
            lemma_member_iff(records, entries, ke);
            let i1 = choose|a: int|
                0 <= a < records.len() && (#[trigger] records[a]).path == records[i].path
                    && records[a].hash == entries[ke].key;
            let j1 = choose|a: int|
                0 <= a < records.len() && (#[trigger] records[a]).path == records[j].path
                    && records[a].hash == entries[ke].key;
            assert(i1 == i) by {
                if i1 < i {
                    assert(records[i1].path != records[i].path);
                } else if i < i1 {
                    assert(records[i].path != records[i1].path);
                }
            }
            assert(j1 == j) by {
                if j1 < j {
                    assert(records[j1].path != records[j].path);
                } else if j < j1 {
                    assert(records[j].path != records[j1].path);
                }
            }
            assert(records[i].hash == entries[ke].key && records[j].hash == entries[ke].key);
        }
    }
}

/// One key's collision stops the whole run: grouping fails exactly when
/// two records share a hash at different sizes, and a failed run emits no
/// group at all.
pub proof fn lemma_collision_aborts(records: Seq<RecordV>)
    ensures
        grouped_records(records) is Err <==> has_collision(records),
{
    lemma_run_grouper_characterization(records);
}

/// Grouping is a function of the record sequence alone: two runs over the
/// same input agree exactly, down to the rendered export text.
pub proof fn lemma_grouping_deterministic(
    records: Seq<RecordV>,
    r1: Result<Seq<Seq<Seq<char>>>, (Seq<char>, Seq<char>)>,
    r2: Result<Seq<Seq<Seq<char>>>, (Seq<char>, Seq<char>)>,
)
    requires
        r1 == grouped_records(records),
        r2 == grouped_records(records),
    ensures
        r1 == r2,
        r1 matches Ok(g1) ==> (r2 matches Ok(g2) ==> rendered_groups(g1) == rendered_groups(g2)),
{
}

/// Once the grouper has failed, feeding it more records changes nothing.
proof fn lemma_run_err_persists(records: Seq<RecordV>, j: int)
    requires
        0 <= j <= records.len(),
        run_grouper(records.take(j)) is Err,
    ensures
        run_grouper(records) == run_grouper(records.take(j)),
    decreases records.len() - j,
{
    if j < records.len() {
        assert(records.take(j + 1).drop_last() =~= records.take(j));
        lemma_run_err_persists(records, j + 1);
    } else {
        assert(records.take(j) =~= records);
    }
}

} // verus!
