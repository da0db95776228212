use vstd::prelude::*;
use super::v7::LogEntyV7;

verus! {

/// `e` is the last record in `es` for its path.
pub open spec fn is_last_for_path(es: Seq<LogEntyV7>, e: LogEntyV7) -> bool {
    exists|k: int|
        0 <= k < es.len() && es[k] == e && forall|m: int|
            k < m < es.len() ==> (#[trigger] es[m]).path@ != e.path@
}

/// Some record of `rs` has path `p`.
pub open spec fn has_path(rs: Seq<LogEntyV7>, p: Seq<u8>) -> bool {
    exists|j: int| 0 <= j < rs.len() && (#[trigger] rs[j]).path@ == p
}

/// No two records share a path.
pub open spec fn paths_distinct(rs: Seq<LogEntyV7>) -> bool {
    forall|i: int, j: int| 0 <= i < j < rs.len() ==> (#[trigger] rs[i]).path@ != (#[trigger] rs[j]).path@
}

fn bytes_equal(a: &[u8], b: &[u8]) -> (r: bool)
    ensures
        r == (a@ == b@),
{
    if a.len() != b.len() {
        return false;
    }
    let mut i: usize = 0;
    while i < a.len()
        invariant
            i <= a@.len() == b@.len(),
            forall|m: int| 0 <= m < i ==> a@[m] == b@[m],
        decreases a@.len() - i,
    {
        if a[i] != b[i] {
            return false;
        }
        i = i + 1;
    }
    assert(a@ =~= b@);
    true
}

/// The position in `rs` of the record with path `p`, if there is one.
fn find_path(rs: &Vec<LogEntyV7>, p: &[u8]) -> (r: Option<usize>)
    ensures
        match r {
            Some(j) => j < rs@.len() && rs@[j as int].path@ == p@,
            None => forall|j: int| 0 <= j < rs@.len() ==> (#[trigger] rs@[j]).path@ != p@,
        },
{
    let mut j: usize = 0;
    while j < rs.len()
        invariant
            j <= rs@.len(),
            forall|m: int| 0 <= m < j ==> (#[trigger] rs@[m]).path@ != p@,
        decreases rs@.len() - j,
    {
        if bytes_equal(rs[j].path, p) {
            return Some(j);
        }
        j = j + 1;
    }
    None
}

/// The records keyed by path, the later record of a path replacing the earlier
/// one: each path of `entries` once, with its last record.
pub fn records_by_path<'a>(entries: &Vec<LogEntyV7<'a, 'a>>) -> (r: Vec<LogEntyV7<'a, 'a>>)
    ensures
        paths_distinct(r@),
        forall|k: int| 0 <= k < entries@.len() ==> has_path(r@, (#[trigger] entries@[k]).path@),
        forall|j: int| 0 <= j < r@.len() ==> is_last_for_path(entries@, #[trigger] r@[j]),
{
    let ghost es = entries@;
    let mut r: Vec<LogEntyV7<'a, 'a>> = Vec::new();
    let ghost mut src: Seq<int> = seq![];
    let ghost mut pos: Seq<int> = seq![];
    let mut k: usize = 0;
    while k < entries.len()
        invariant
            k <= es.len(),
            es == entries@,
            paths_distinct(r@),
            src.len() == r@.len(),
            pos.len() == k,
            forall|j: int|
                0 <= j < r@.len() ==> 0 <= #[trigger] src[j] < k && es[src[j]] == r@[j] && forall|m: int|
                    src[j] < m < k ==> (#[trigger] es[m]).path@ != r@[j].path@,
            forall|m: int| 0 <= m < k ==> 0 <= #[trigger] pos[m] < r@.len() && r@[pos[m]].path@ == es[m].path@,
        decreases es.len() - k,
    {
        let e = entries[k];
        match find_path(&r, e.path) {
            Some(j) => {
                let ghost old_r = r@;
                r.set(j, e);
                proof {
                    src = src.update(j as int, k as int);
                    pos = pos.push(j as int);
                    assert forall|a: int, b: int| 0 <= a < b < r@.len() implies (#[trigger] r@[a]).path@
                        != (#[trigger] r@[b]).path@ by {
                        assert(old_r[a].path@ != old_r[b].path@);
                    }
                    assert forall|i: int| 0 <= i < r@.len() implies 0 <= #[trigger] src[i] < k + 1
                        && es[src[i]] == r@[i] && forall|m: int|
                        src[i] < m < k + 1 ==> (#[trigger] es[m]).path@ != r@[i].path@ by {
                        if i != j {
                            assert(old_r[i].path@ != old_r[j as int].path@ || i == j);
                            assert(es[k as int].path@ == old_r[j as int].path@);
                        }
                    }
                }
            },
            None => {
                let ghost old_r = r@;
                r.push(e);
                proof {
                    src = src.push(k as int);
                    pos = pos.push(old_r.len() as int);
                    assert forall|a: int, b: int| 0 <= a < b < r@.len() implies (#[trigger] r@[a]).path@
                        != (#[trigger] r@[b]).path@ by {
                        if b == old_r.len() {
                            assert(old_r[a].path@ != e.path@);
                        } else {
                            assert(old_r[a].path@ != old_r[b].path@);
                        }
                    }
                    assert forall|i: int| 0 <= i < r@.len() implies 0 <= #[trigger] src[i] < k + 1
                        && es[src[i]] == r@[i] && forall|m: int|
                        src[i] < m < k + 1 ==> (#[trigger] es[m]).path@ != r@[i].path@ by {
                        if i < old_r.len() {
                            assert(old_r[i].path@ != e.path@);
                        }
                    }
                }
            },
        }
        k = k + 1;
    }
    assert forall|k2: int| 0 <= k2 < entries@.len() implies has_path(r@, (#[trigger] entries@[k2]).path@) by {
        assert(r@[pos[k2]].path@ == es[k2].path@);
    }
    assert forall|j: int| 0 <= j < r@.len() implies is_last_for_path(entries@, #[trigger] r@[j]) by {
        assert(es[src[j]] == r@[j]);
    }
    r
}

} // verus!
