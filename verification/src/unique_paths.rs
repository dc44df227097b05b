//! The set-difference joiner: given the full record set and a previously
//! computed sequence of duplicate groups, it drops every non-representative
//! group member — every member but a group's first — and keeps the rest.

use crate::detect_dups::{group_views, paths_of, record_views};
use crate::internals::Record;
use crate::text::{str_eq, str_views};
use vstd::prelude::*;

verus! {

/// Where the joiner reads records and groups, where it writes, and
/// whether it writes whole records or paths alone.
#[derive(Debug, Clone)]
pub struct UniquePathsConfig {
    pub paths_file: String,
    pub dups_file: String,
    pub target_file: String,
    pub only_paths: bool,
    pub debug: crate::common::Debug,
    pub error_log: Option<String>,
}

/// `p` is a non-representative member of some group: it appears at a
/// position after the first in one of them.
pub open spec fn discarded(groups: Seq<Seq<Seq<char>>>, p: Seq<char>) -> bool {
    exists|g: int, m: int|
        #![trigger groups[g][m]]
        0 <= g < groups.len() && 1 <= m < groups[g].len() && groups[g][m] == p
}

/// Some string in `v` reads `p`.
pub open spec fn holds_path(v: Seq<String>, p: Seq<char>) -> bool {
    exists|i: int| 0 <= i < v.len() && (#[trigger] v[i])@ == p
}

/// `Join(F, G)`: the records of `F` whose paths no group discards.
pub open spec fn join_spec(records: Seq<crate::internals::RecordV>, groups: Seq<Seq<Seq<char>>>) -> Seq<
    crate::internals::RecordV,
> {
    records.filter(|r: crate::internals::RecordV| !discarded(groups, r.path))
}

/// Is `p` among the strings of `v`?
pub fn contains_path(v: &Vec<String>, p: &str) -> (r: bool)
    ensures
        r == holds_path(v@, p@),
{
    let n = v.len();
    let mut i: usize = 0;
    while i < n
        invariant
            0 <= i <= n,
            n == v@.len(),
            forall|j: int| 0 <= j < i ==> (#[trigger] v@[j])@ != p@,
        decreases n - i,
    {
        if str_eq(v[i].as_str(), p) {
            return true;
        }
        i = i + 1;
    }
    false
}

/// Collects every non-representative group member, once each: the discard
/// set of the join, materialized before the streaming pass.
pub fn build_discard_list(groups: &Vec<Vec<String>>) -> (r: Vec<String>)
    ensures
        forall|p: Seq<char>| #[trigger]
            holds_path(r@, p) <==> discarded(group_views(groups@), p),
        forall|i: int, j: int| 0 <= i < j < r@.len() ==> (#[trigger] r@[i])@ != (#[trigger] r@[j])@,
{
    let ghost gv = group_views(groups@);
    let mut out: Vec<String> = Vec::new();
    let n = groups.len();
    let mut gi: usize = 0;
    while gi < n
        invariant
            0 <= gi <= n,
            n == groups@.len(),
            gv == group_views(groups@),
            forall|p: Seq<char>| #[trigger]
                holds_path(out@, p) <==> exists|g: int, m: int|
                    #![trigger gv[g][m]]
                    0 <= g < gi && 1 <= m < gv[g].len() && gv[g][m] == p,
            forall|i: int, j: int|
                0 <= i < j < out@.len() ==> (#[trigger] out@[i])@ != (#[trigger] out@[j])@,
        decreases n - gi,
    {
        let group = &groups[gi];
        let nm = group.len();
        let mut mi: usize = 1;
        while mi < nm
            invariant
                1 <= mi <= nm || (nm == 0 && mi == 1),
                nm == group@.len(),
                group@ == groups@[gi as int]@,
                0 <= gi < n,
                n == groups@.len(),
                gv == group_views(groups@),
                forall|p: Seq<char>| #[trigger]
                    holds_path(out@, p) <==> (exists|g: int, m: int|
                        #![trigger gv[g][m]]
                        0 <= g < gi && 1 <= m < gv[g].len() && gv[g][m] == p) || (exists|m: int|
                        1 <= m < mi && #[trigger] gv[gi as int][m] == p),
                forall|i: int, j: int|
                    0 <= i < j < out@.len() ==> (#[trigger] out@[i])@ != (#[trigger] out@[j])@,
            decreases nm - mi,
        {
            let ghost before = out@;
            let p = &group[mi];
            assert(p@ == gv[gi as int][mi as int]);
            if !contains_path(&out, p.as_str()) {
                out.push(p.clone());
                proof {
                    assert(forall|i: int| 0 <= i < before.len() ==> out@[i] == before[i]);
                    assert(out@[out@.len() - 1]@ == p@);
                    assert forall|q: Seq<char>| #[trigger] holds_path(out@, q) implies (
                    holds_path(before, q) || q == p@) by {
                        let i = choose|i: int| 0 <= i < out@.len() && (#[trigger] out@[i])@ == q;
                        if i < before.len() {
                            assert(holds_path(before, q));
                        }
                    }
                    assert forall|q: Seq<char>| (holds_path(before, q) || q == p@) implies
                        #[trigger] holds_path(out@, q) by {
                        if holds_path(before, q) {
                            let i = choose|i: int|
                                0 <= i < before.len() && (#[trigger] before[i])@ == q;
                            assert(out@[i]@ == q);
                        } else {
                            assert(out@[out@.len() - 1]@ == q);
                        }
                    }
                }
            } else {
                assert(holds_path(out@, p@));
            }
            proof {
                assert forall|q: Seq<char>| #[trigger] holds_path(out@, q) implies ((exists|
                    g: int,
                    m: int,
                |
                    #![trigger gv[g][m]]
                    0 <= g < gi && 1 <= m < gv[g].len() && gv[g][m] == q) || (exists|m: int|
                    1 <= m < mi + 1 && #[trigger] gv[gi as int][m] == q)) by {
                    if q == p@ {
                        assert(gv[gi as int][mi as int] == q);
                    }
                }
                assert forall|q: Seq<char>|
                    ((exists|g: int, m: int|
                        #![trigger gv[g][m]]
                        0 <= g < gi && 1 <= m < gv[g].len() && gv[g][m] == q) || (exists|m: int|
                        1 <= m < mi + 1 && #[trigger] gv[gi as int][m] == q)) implies #[trigger] holds_path(
                    out@,
                    q,
                ) by {
                    if exists|m: int| 1 <= m < mi + 1 && #[trigger] gv[gi as int][m] == q {
                        let m = choose|m: int| 1 <= m < mi + 1 && #[trigger] gv[gi as int][m] == q;
                        if m == mi {
                            assert(q == p@);
                            assert(holds_path(out@, q));
                        }
                    }
                }
            }
            mi = mi + 1;
        }
        proof {
            assert forall|q: Seq<char>| #[trigger] holds_path(out@, q) implies exists|
                g: int,
                m: int,
            |
                #![trigger gv[g][m]]
                0 <= g < gi + 1 && 1 <= m < gv[g].len() && gv[g][m] == q by {
                if nm == 0 {
                } else {
                    if exists|m: int| 1 <= m < nm && #[trigger] gv[gi as int][m] == q {
                        let m = choose|m: int| 1 <= m < nm && #[trigger] gv[gi as int][m] == q;
                        assert(gv[gi as int][m] == q && 1 <= m < gv[gi as int].len());
                    }
                }
            }
            assert forall|q: Seq<char>|
                (exists|g: int, m: int|
                    #![trigger gv[g][m]]
                    0 <= g < gi + 1 && 1 <= m < gv[g].len() && gv[g][m] == q) implies #[trigger] holds_path(
                out@,
                q,
            ) by {
                let (g, m) = choose|g: int, m: int|
                    #![trigger gv[g][m]]
                    0 <= g < gi + 1 && 1 <= m < gv[g].len() && gv[g][m] == q;
                if g == gi {
                    assert(gv[gi as int].len() == nm);
                    assert(exists|mm: int| 1 <= mm < nm && #[trigger] gv[gi as int][mm] == q);
                }
            }
        }
        gi = gi + 1;
    }
    proof {
        assert forall|p: Seq<char>| #[trigger] holds_path(out@, p) == discarded(gv, p) by {
            if holds_path(out@, p) {
                assert(discarded(gv, p));
            }
            if discarded(gv, p) {
                let (g, m) = choose|g: int, m: int|
                    #![trigger gv[g][m]]
                    0 <= g < gv.len() && 1 <= m < gv[g].len() && gv[g][m] == p;
                assert(exists|g: int, m: int|
                    #![trigger gv[g][m]]
                    0 <= g < gi && 1 <= m < gv[g].len() && gv[g][m] == p);
            }
        }
    }
    out
}

proof fn lemma_join_push(
    rs: Seq<crate::internals::RecordV>,
    r: crate::internals::RecordV,
    groups: Seq<Seq<Seq<char>>>,
)
    ensures
        join_spec(rs.push(r), groups) == if !discarded(groups, r.path) {
            join_spec(rs, groups).push(r)
        } else {
            join_spec(rs, groups)
        },
{
    reveal(Seq::filter);
    assert(rs.push(r).drop_last() =~= rs);
    assert(rs.push(r).last() == r);
}

/// Streams the full record set against the groups' discard set: every
/// representative and every ungrouped record passes through, in order;
/// every non-representative member is dropped.
pub fn join_records(records: &Vec<Record>, groups: &Vec<Vec<String>>) -> (r: Vec<Record>)
    ensures
        record_views(r@) == join_spec(record_views(records@), group_views(groups@)),
{
    let ghost rv = record_views(records@);
    let ghost gv = group_views(groups@);
    let discard = build_discard_list(groups);
    let mut out: Vec<Record> = Vec::new();
    proof {
        assert(rv.take(0) =~= Seq::<crate::internals::RecordV>::empty());
        reveal(Seq::filter);
        assert(record_views(out@) =~= join_spec(rv.take(0), gv));
    }
    let n = records.len();
    let mut i: usize = 0;
    while i < n
        invariant
            0 <= i <= n,
            n == records@.len(),
            rv == record_views(records@),
            gv == group_views(groups@),
            forall|p: Seq<char>| #[trigger] holds_path(discard@, p) <==> discarded(gv, p),
            record_views(out@) == join_spec(rv.take(i as int), gv),
        decreases n - i,
    {
        let rec = &records[i];
        proof {
            assert(rv.take(i + 1).drop_last() =~= rv.take(i as int));
            assert(rv.take(i + 1).last() == rv[i as int]);
            assert(rv.take(i + 1) =~= rv.take(i as int).push(rv[i as int]));
            lemma_join_push(rv.take(i as int), rv[i as int], gv);
        }
        if !contains_path(&discard, rec.path.as_str()) {
            let ghost before = out@;
            out.push(
                Record { path: rec.path.clone(), size: rec.size, hash: rec.hash.clone() },
            );
            proof {
                assert(record_views(out@) =~= record_views(before).push(rv[i as int]));
            }
        }
        i = i + 1;
    }
    proof {
        assert(rv.take(n as int) =~= rv);
    }
    out
}

/// The path-only projection of a record list, for terminal-friendly
/// output.
pub fn paths_only(records: &Vec<Record>) -> (r: Vec<String>)
    ensures
        str_views(r@) == paths_of(record_views(records@)),
{
    let mut out: Vec<String> = Vec::new();
    let n = records.len();
    let mut i: usize = 0;
    while i < n
        invariant
            0 <= i <= n,
            n == records@.len(),
            str_views(out@) =~= paths_of(record_views(records@.take(i as int))),
        decreases n - i,
    {
        let ghost before = out@;
        out.push(records[i].path.clone());
        proof {
            assert(str_views(out@) =~= str_views(before).push(records@[i as int]@.path));
            assert(paths_of(record_views(records@.take(i + 1))) =~= paths_of(
                record_views(records@.take(i as int)),
            ).push(records@[i as int]@.path));
            assert(str_views(out@) =~= paths_of(record_views(records@.take(i + 1))));
        }
        i = i + 1;
    }
    proof {
        assert(records@.take(n as int) =~= records@);
    }
    out
}

/// Joining against no groups at all gives the record set back unchanged.
pub proof fn lemma_join_identity(records: Seq<crate::internals::RecordV>)
    ensures
        join_spec(records, Seq::<Seq<Seq<char>>>::empty()) == records,
{
    assert forall|i: int| 0 <= i < records.len() implies !discarded(
        Seq::<Seq<Seq<char>>>::empty(),
        (#[trigger] records[i]).path,
    ) by {}
    crate::seq_facts::lemma_filter_all_true(
        records,
        |r: crate::internals::RecordV| !discarded(Seq::<Seq<Seq<char>>>::empty(), r.path),
    );
}

} // verus!
