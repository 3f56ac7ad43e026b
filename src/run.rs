//! Runs: loading one source into keyed records, and sorting them by key.

use vstd::prelude::*;
use crate::key::{KeyError, key_outcome, take_position};
use crate::text::{lemma_pieces_nonempty, pieces, split_pieces};

verus! {

/// One line of a source with the key extracted from it.
pub struct Record {
    pub key: u32,
    pub text: String,
}

/// The records of one source.
pub struct Run {
    pub records: Vec<Record>,
}

/// The lines of `ls` that are not empty, in order.
pub open spec fn non_empty(ls: Seq<Seq<char>>) -> Seq<Seq<char>>
    decreases ls.len(),
{
    if ls.len() == 0 {
        Seq::<Seq<char>>::empty()
    } else if ls.last().len() == 0 {
        non_empty(ls.drop_last())
    } else {
        non_empty(ls.drop_last()).push(ls.last())
    }
}

/// The lines of a source that carry records: all lines, less the first one
/// when the source has a header, less the empty ones.
pub open spec fn body_lines(contents: Seq<char>, header: bool) -> Seq<Seq<char>> {
    let ls = pieces(contents, '\n');
    if header {
        non_empty(ls.drop_first())
    } else {
        non_empty(ls)
    }
}

/// Loads one source: every body line becomes a record with its key, in line
/// order. A single line without a key discards the whole source.
pub fn read_data<F: Fn(String) -> Option<u32>>(
    contents: &str,
    header: bool,
    column: usize,
    parse: &F,
) -> (r: Result<Run, KeyError>)
    requires
        forall|t: String| parse.requires((t,)),
    ensures
        r is Ok ==> {
            let recs = r->Ok_0.records@;
            &&& recs.len() == body_lines(contents@, header).len()
            &&& forall|i: int|
                0 <= i < recs.len() ==> {
                    &&& (#[trigger] recs[i]).text@ == body_lines(contents@, header)[i]
                    &&& key_outcome(
                        *parse,
                        body_lines(contents@, header)[i],
                        column as int,
                        Ok(recs[i].key),
                    )
                }
        },
        r is Err ==> exists|i: int|
            0 <= i < body_lines(contents@, header).len() && key_outcome(
                *parse,
                #[trigger] body_lines(contents@, header)[i],
                column as int,
                Err(r->Err_0),
            ),
{
    let lines = split_pieces(contents, '\n');
    let ghost ls = pieces(contents@, '\n');
    let ghost start: int = if header { 1 } else { 0 };
    proof {
        lemma_pieces_nonempty(contents@, '\n');
    }
    let mut i: usize = if header { 1 } else { 0 };
    let mut recs: Vec<Record> = Vec::new();
    let ghost kept: Seq<Seq<char>> = Seq::empty();
    while i < lines.len()
        invariant
            lines@.len() == ls.len(),
            forall|k: int| 0 <= k < lines@.len() ==> #[trigger] lines@[k]@ == ls[k],
            ls == pieces(contents@, '\n'),
            ls.len() >= 1,
            start == (if header { 1int } else { 0int }),
            start <= i <= lines@.len(),
            forall|t: String| parse.requires((t,)),
            kept == non_empty(ls.subrange(start, i as int)),
            recs@.len() == kept.len(),
            forall|k: int|
                0 <= k < recs@.len() ==> {
                    &&& (#[trigger] recs@[k]).text@ == kept[k]
                    &&& key_outcome(*parse, kept[k], column as int, Ok(recs@[k].key))
                },
        decreases lines@.len() - i,
    {
        let line = &lines[i];
        proof {
            let q = ls.subrange(start, i + 1);
            assert(q.drop_last() == ls.subrange(start, i as int));
            assert(q.last() == ls[i as int]);
        }
        if line.as_str().is_empty() {
            proof {
                kept = non_empty(ls.subrange(start, i + 1));
            }
        } else {
            match take_position(line.as_str(), column, parse) {
                Ok(k) => {
                    let text = line.clone();
                    recs.push(Record { key: k, text });
                    proof {
                        kept = non_empty(ls.subrange(start, i + 1));
                    }
                },
                Err(e) => {
                    proof {
                        if header {
                            assert(ls.subrange(1, ls.len() as int) == ls.drop_first());
                        } else {
                            assert(ls.subrange(0, ls.len() as int) == ls);
                        }
                        assert(line@ == ls[i as int]);
                        assert(line@.len() > 0);
                        lemma_non_empty_keeps(ls, start, i as int);
                        let bl = body_lines(contents@, header);
                        let j = choose|j: int|
                            0 <= j < bl.len() && #[trigger] non_empty(
                                ls.subrange(start, ls.len() as int),
                            )[j] == ls[i as int];
                        assert(bl[j] == line@);
                        assert(key_outcome(*parse, bl[j], column as int, Err(e)));
                    }
                    return Err(e);
                },
            }
        }
        i = i + 1;
    }
    proof {
        if header {
            assert(ls.subrange(1, ls.len() as int) == ls.drop_first());
        } else {
            assert(ls.subrange(0, ls.len() as int) == ls);
        }
    }
    Ok(Run { records: recs })
}

/// A non-empty line at position `i` of `ls` (from `start` on) is among the
/// kept lines.
proof fn lemma_non_empty_keeps(ls: Seq<Seq<char>>, start: int, i: int)
    requires
        0 <= start <= i < ls.len(),
        ls[i].len() > 0,
    ensures
        exists|j: int|
            0 <= j < non_empty(ls.subrange(start, ls.len() as int)).len() && #[trigger] non_empty(
                ls.subrange(start, ls.len() as int),
            )[j] == ls[i],
{
    lemma_non_empty_index(ls.subrange(start, ls.len() as int), i - start);
}

proof fn lemma_non_empty_index(ls: Seq<Seq<char>>, i: int)
    requires
        0 <= i < ls.len(),
        ls[i].len() > 0,
    ensures
        exists|j: int| 0 <= j < non_empty(ls).len() && #[trigger] non_empty(ls)[j] == ls[i],
    decreases ls.len(),
{
    if i == ls.len() - 1 {
        assert(non_empty(ls)[non_empty(ls).len() - 1] == ls[i]);
    } else {
        lemma_non_empty_index(ls.drop_last(), i);
        let j = choose|j: int|
            0 <= j < non_empty(ls.drop_last()).len() && #[trigger] non_empty(ls.drop_last())[j]
                == ls.drop_last()[i];
        assert(non_empty(ls)[j] == ls[i]);
    }
}

/// Record `a` of `recs` comes before record `b` in a stable sort by key:
/// a smaller key, or an equal key and an earlier position.
pub open spec fn key_before(recs: Seq<Record>, a: int, b: int) -> bool {
    recs[a].key < recs[b].key || (recs[a].key == recs[b].key && a < b)
}

/// `sorted` holds the records of `recs` ordered by key, records with equal
/// keys in the order they had before: `perm` gives for each place the earlier
/// position, and it increases in the stable key order.
pub open spec fn is_stable_sort_by(recs: Seq<Record>, sorted: Seq<Record>, perm: Seq<int>) -> bool {
    &&& perm.len() == recs.len()
    &&& sorted.len() == recs.len()
    &&& forall|k: int| 0 <= k < perm.len() ==> 0 <= #[trigger] perm[k] < recs.len()
    &&& forall|k: int| 0 <= k < perm.len() ==> #[trigger] sorted[k] == recs[perm[k]]
    &&& forall|k: int, l: int|
        0 <= k < l < perm.len() ==> key_before(recs, #[trigger] perm[k], #[trigger] perm[l])
}

pub open spec fn is_stable_sort(recs: Seq<Record>, sorted: Seq<Record>) -> bool {
    exists|perm: Seq<int>| is_stable_sort_by(recs, sorted, perm)
}

/// Keys do not decrease along `recs`.
pub open spec fn keys_sorted(recs: Seq<Record>) -> bool {
    forall|k: int, l: int| 0 <= k < l < recs.len() ==> recs[k].key <= recs[l].key
}

/// Sorts a run by key; records with equal keys keep their order.
pub fn sort_file(f: &mut Run)
    ensures
        is_stable_sort(old(f).records@, final(f).records@),
        keys_sorted(final(f).records@),
{
    let n = f.records.len();
    let ghost recs = f.records@;
    let mut idx: Vec<usize> = Vec::new();
    let mut i: usize = 0;
    while i < n
        invariant
            recs == f.records@,
            n == recs.len(),
            i <= n,
            idx@.len() == i,
            forall|k: int| 0 <= k < i ==> #[trigger] idx@[k] < i,
            forall|k: int, l: int|
                0 <= k < l < i ==> key_before(recs, #[trigger] idx@[k] as int, #[trigger] idx@[l] as int),
        decreases n - i,
    {
        let key = f.records[i].key;
        let mut pos: usize = 0;
        while pos < idx.len() && f.records[idx[pos]].key <= key
            invariant
                recs == f.records@,
                n == recs.len(),
                i < n,
                idx@.len() == i,
                pos <= i,
                key == recs[i as int].key,
                forall|k: int| 0 <= k < i ==> #[trigger] idx@[k] < i,
                forall|k: int| 0 <= k < pos ==> recs[#[trigger] idx@[k] as int].key <= key,
            decreases i - pos,
        {
            pos = pos + 1;
        }
        proof {
            if pos < i {
                assert forall|k: int| pos <= k < i implies recs[#[trigger] idx@[k] as int].key > key by {
                    if k > pos {
                        assert(key_before(recs, idx@[pos as int] as int, idx@[k] as int));
                    }
                }
            }
        }
        let ghost old_idx = idx@;
        idx.insert(pos, i);
        proof {
            assert forall|k: int| 0 <= k < i + 1 implies #[trigger] idx@[k] < i + 1 by {
                if k < pos {
                    assert(idx@[k] == old_idx[k]);
                } else if k > pos {
                    assert(idx@[k] == old_idx[k - 1]);
                }
            }
            assert forall|k: int, l: int| 0 <= k < l < i + 1 implies key_before(
                recs,
                #[trigger] idx@[k] as int,
                #[trigger] idx@[l] as int,
            ) by {
                if k < pos {
                    assert(idx@[k] == old_idx[k]);
                    if l < pos {
                        assert(idx@[l] == old_idx[l]);
                    } else if l > pos {
                        assert(idx@[l] == old_idx[l - 1]);
                    }
                } else if k == pos {
                    assert(idx@[l] == old_idx[l - 1]);
                } else {
                    assert(idx@[k] == old_idx[k - 1]);
                    assert(idx@[l] == old_idx[l - 1]);
                }
            }
        }
        i = i + 1;
    }
    let mut out: Vec<Record> = Vec::new();
    let mut k: usize = 0;
    while k < n
        invariant
            recs == f.records@,
            n == recs.len(),
            idx@.len() == n,
            k <= n,
            out@.len() == k,
            forall|j: int| 0 <= j < n ==> #[trigger] idx@[j] < n,
            forall|j: int| 0 <= j < k ==> #[trigger] out@[j] == recs[idx@[j] as int],
        decreases n - k,
    {
        let r = &f.records[idx[k]];
        out.push(Record { key: r.key, text: r.text.clone() });
        k = k + 1;
    }
    f.records = out;
    proof {
        let perm = idx@.map_values(|x: usize| x as int);
        assert(is_stable_sort_by(recs, f.records@, perm));
        assert forall|a: int, b: int| 0 <= a < b < n implies f.records@[a].key <= f.records@[b].key by {
            assert(key_before(recs, perm[a], perm[b]));
        }
    }
}

/// The runs of the sources that loaded, in source order.
pub open spec fn loaded_runs(loaded: Seq<Result<Run, KeyError>>) -> Seq<Run>
    decreases loaded.len(),
{
    if loaded.len() == 0 {
        Seq::<Run>::empty()
    } else {
        match loaded.last() {
            Ok(run) => loaded_runs(loaded.drop_last()).push(run),
            Err(_) => loaded_runs(loaded.drop_last()),
        }
    }
}

/// Keeps the sources that loaded, in order, each sorted by key; a source
/// that failed to load contributes nothing.
pub fn prepare_runs(loaded: Vec<Result<Run, KeyError>>) -> (r: Vec<Run>)
    ensures
        r@.len() == loaded_runs(loaded@).len(),
        forall|k: int|
            0 <= k < r@.len() ==> is_stable_sort(
                loaded_runs(loaded@)[k].records@,
                (#[trigger] r@[k]).records@,
            ) && keys_sorted(r@[k].records@),
{
    let ghost all = loaded@;
    let n = loaded.len();
    let mut rest = loaded;
    let mut out: Vec<Run> = Vec::new();
    let mut i: usize = 0;
    while i < n
        invariant
            n == all.len(),
            i <= n,
            rest@ == all.subrange(i as int, n as int),
            out@.len() == loaded_runs(all.subrange(0, i as int)).len(),
            forall|k: int|
                0 <= k < out@.len() ==> is_stable_sort(
                    loaded_runs(all.subrange(0, i as int))[k].records@,
                    (#[trigger] out@[k]).records@,
                ) && keys_sorted(out@[k].records@),
        decreases n - i,
    {
        proof {
            let q = all.subrange(0, i + 1);
            assert(q.drop_last() == all.subrange(0, i as int));
            assert(q.last() == all[i as int]);
            assert(rest@[0] == all[i as int]);
        }
        let item = rest.remove(0);
        proof {
            assert(rest@ == all.subrange(i + 1, n as int));
        }
        match item {
            Ok(run) => {
                let mut run = run;
                sort_file(&mut run);
                out.push(run);
            },
            Err(_) => {},
        }
        i = i + 1;
    }
    proof {
        assert(all.subrange(0, n as int) == all);
    }
    out
}

/// A source that failed to load changes nothing: the runs kept are the same
/// as if it had not been there at all.
pub proof fn lemma_failed_source_dropped(loaded: Seq<Result<Run, KeyError>>, i: int)
    requires
        0 <= i < loaded.len(),
        loaded[i] is Err,
    ensures
        loaded_runs(loaded) == loaded_runs(loaded.remove(i)),
    decreases loaded.len(),
{
    if i == loaded.len() - 1 {
        assert(loaded.remove(i) == loaded.drop_last());
    } else {
        lemma_failed_source_dropped(loaded.drop_last(), i);
        assert(loaded.remove(i).drop_last() == loaded.drop_last().remove(i));
        assert(loaded.remove(i).last() == loaded.last());
    }
}

} // verus!
