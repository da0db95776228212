use vstd::prelude::*;
use crate::text::str_equals;

verus! {

/// What the log keeps of the last successful build of one output.
pub struct LogEntry {
    pub output: String,
    pub command_hash: u64,
    pub start_time: i32,
    pub end_time: i32,
    pub mtime: i64,
}

/// The position of the first entry for output `o`, or -1 when there is none.
pub open spec fn output_index(es: Seq<LogEntry>, o: Seq<char>) -> int
    decreases es.len(),
{
    if es.len() == 0 {
        -1
    } else if es[0].output@ == o {
        0
    } else {
        let k = output_index(es.drop_first(), o);
        if k < 0 {
            -1
        } else {
            k + 1
        }
    }
}

/// The entries after `e` is recorded: it replaces the entry of its output, or
/// is added at the end when its output has none.
pub open spec fn with_entry(es: Seq<LogEntry>, e: LogEntry) -> Seq<LogEntry> {
    let k = output_index(es, e.output@);
    if k < 0 {
        es.push(e)
    } else {
        es.update(k, e)
    }
}

/// The entries whose output is not marked dead in `dead`, in order.
pub open spec fn live_entries(es: Seq<LogEntry>, dead: Seq<bool>) -> Seq<LogEntry>
    decreases es.len(),
{
    if es.len() == 0 {
        Seq::empty()
    } else {
        (if dead[0] {
            Seq::empty()
        } else {
            seq![es[0]]
        }) + live_entries(es.drop_first(), dead.drop_first())
    }
}

proof fn lemma_output_index(es: Seq<LogEntry>, o: Seq<char>, i: int)
    requires
        0 <= i <= es.len(),
        forall|j: int| 0 <= j < i ==> (#[trigger] es[j]).output@ != o,
    ensures
        output_index(es, o) == (if output_index(es.skip(i), o) < 0 {
            -1
        } else {
            output_index(es.skip(i), o) + i
        }),
    decreases i,
{
    if i > 0 {
        assert(es.skip(1).skip(i - 1) =~= es.skip(i));
        assert(es[0].output@ != o);
        assert forall|j: int| 0 <= j < i - 1 implies (#[trigger] es.drop_first()[j]).output@ != o by {
            assert(es.drop_first()[j] == es[j + 1]);
        }
        lemma_output_index(es.drop_first(), o, i - 1);
    } else {
        assert(es.skip(0) =~= es);
    }
}

/// The position of the entry for output `o` in `es`, if there is one.
pub fn find_output(es: &Vec<LogEntry>, o: &str) -> (r: Option<usize>)
    ensures
        match r {
            Some(k) => k < es@.len() && k as int == output_index(es@, o@),
            None => output_index(es@, o@) == -1,
        },
{
    let mut i: usize = 0;
    while i < es.len()
        invariant
            i <= es@.len(),
            forall|j: int| 0 <= j < i ==> (#[trigger] es@[j]).output@ != o@,
        decreases es@.len() - i,
    {
        if str_equals(es[i].output.as_str(), o) {
            proof {
                lemma_output_index(es@, o@, i as int);
                assert(es@.skip(i as int)[0] == es@[i as int]);
            }
            return Some(i);
        }
        i = i + 1;
    }
    proof {
        lemma_output_index(es@, o@, i as int);
        assert(es@.skip(i as int).len() == 0);
    }
    None
}

/// The entries whose output is not marked dead, in order; `dead[i]` tells
/// whether the output of entry `i` is dead.
pub fn entries_without_dead(entries: Vec<LogEntry>, dead: &Vec<bool>) -> (r: Vec<LogEntry>)
    requires
        dead@.len() == entries@.len(),
    ensures
        r@ == live_entries(entries@, dead@),
{
    let ghost all = entries@;
    let mut rest = entries;
    let mut out: Vec<LogEntry> = Vec::new();
    let mut k: usize = 0;
    let n = dead.len();
    assert(all.skip(0) =~= all);
    assert(dead@.skip(0) =~= dead@);
    assert(out@ + live_entries(all, dead@) =~= live_entries(all, dead@));
    while rest.len() > 0
        invariant
            k <= dead@.len(),
            n == dead@.len(),
            dead@.len() == all.len(),
            rest@ == all.skip(k as int),
            out@ + live_entries(rest@, dead@.skip(k as int)) == live_entries(all, dead@),
        decreases rest@.len(),
    {
        let ghost before = rest@;
        let ghost d = dead@.skip(k as int);
        assert(k < dead@.len());
        let e = rest.remove(0);
        assert(rest@ =~= all.skip(k + 1));
        assert(before.drop_first() =~= rest@);
        assert(d.drop_first() =~= dead@.skip(k + 1));
        assert(d[0] == dead@[k as int]);
        let ghost prev = out@;
        if !dead[k] {
            out.push(e);
        }
        assert(out@ + live_entries(rest@, dead@.skip(k + 1)) =~= prev + live_entries(before, d));
        k = k + 1;
    }
    assert(live_entries(rest@, dead@.skip(k as int)) =~= Seq::<LogEntry>::empty());
    assert(out@ + Seq::<LogEntry>::empty() =~= out@);
    out
}

} // verus!
