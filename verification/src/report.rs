//! The report aggregator: the three queries over a scan's instance
//! sequence. Listing returns the instances unchanged; summarizing tallies
//! occurrences by marker and by file and ranks the files; searching keeps
//! the instances whose marker name is in a comma-separated request. Each
//! query reports an empty result explicitly instead of failing.

use vstd::prelude::*;
use vstd::string::*;

use crate::matcher::{MarkerInstance, MarkerInstanceView};
use crate::text::{split_on, split_str_on, trim_str, trimmed};

verus! {

/// One tally entry: a key (a marker name or a file path) and how often it
/// occurs.
#[derive(Debug)]
pub struct CountEntry {
    pub key: String,
    pub count: usize,
}

/// Mathematical model of a [`CountEntry`].
pub struct CountEntryView {
    pub key: Seq<char>,
    pub count: int,
}

impl View for CountEntry {
    type V = CountEntryView;

    open spec fn view(&self) -> CountEntryView {
        CountEntryView { key: self.key@, count: self.count as int }
    }
}

impl DeepView for CountEntry {
    type V = CountEntryView;

    open spec fn deep_view(&self) -> CountEntryView {
        self.view()
    }
}

impl CountEntry {
    /// A copy with the same fields.
    pub fn duplicate(&self) -> (r: CountEntry)
        ensures
            r@ == self@,
    {
        CountEntry { key: self.key.clone(), count: self.count }
    }
}

/// The marker names of the instances, in order.
pub open spec fn marker_names(s: Seq<MarkerInstanceView>) -> Seq<Seq<char>> {
    s.map_values(|i: MarkerInstanceView| i.marker_name)
}

/// The file paths of the instances, in order.
pub open spec fn file_paths(s: Seq<MarkerInstanceView>) -> Seq<Seq<char>> {
    s.map_values(|i: MarkerInstanceView| i.file_path)
}

/// How often `key` occurs in `keys`.
pub open spec fn key_count(keys: Seq<Seq<char>>, key: Seq<char>) -> int
    decreases keys.len(),
{
    if keys.len() == 0 {
        0
    } else {
        key_count(keys.drop_last(), key) + if keys.last() == key {
            1int
        } else {
            0int
        }
    }
}

/// The distinct keys of `keys`, in first-occurrence order.
pub open spec fn distinct_keys(keys: Seq<Seq<char>>) -> Seq<Seq<char>>
    decreases keys.len(),
{
    if keys.len() == 0 {
        seq![]
    } else {
        let rest = distinct_keys(keys.drop_last());
        if rest.contains(keys.last()) {
            rest
        } else {
            rest.push(keys.last())
        }
    }
}

/// The total of the entries' counts.
pub open spec fn sum_counts(entries: Seq<CountEntryView>) -> int
    decreases entries.len(),
{
    if entries.len() == 0 {
        0
    } else {
        sum_counts(entries.drop_last()) + entries.last().count
    }
}

/// A key's count lies between zero and the number of keys.
proof fn lemma_key_count_bounds(keys: Seq<Seq<char>>, key: Seq<char>)
    ensures
        0 <= key_count(keys, key) <= keys.len(),
    decreases keys.len(),
{
    if keys.len() > 0 {
        lemma_key_count_bounds(keys.drop_last(), key);
    }
}

/// The distinct-key list has no duplicates, and holds exactly the keys that
/// occur at least once.
proof fn lemma_distinct_keys_props(keys: Seq<Seq<char>>)
    ensures
        forall|a: int, b: int| 0 <= a < b < distinct_keys(keys).len() ==> distinct_keys(
            keys,
        )[a] != distinct_keys(keys)[b],
        forall|k: Seq<char>| distinct_keys(keys).contains(k) <==> #[trigger] key_count(keys, k)
            > 0,
    decreases keys.len(),
{
    if keys.len() > 0 {
        lemma_distinct_keys_props(keys.drop_last());
        let rest = distinct_keys(keys.drop_last());
        assert forall|k: Seq<char>| distinct_keys(keys).contains(k) implies key_count(
            keys,
            k,
        ) > 0 by {
            lemma_key_count_bounds(keys.drop_last(), k);
            if k != keys.last() {
                assert(rest.contains(k));
            }
        }
        assert forall|k: Seq<char>| #[trigger] key_count(keys, k) > 0 implies distinct_keys(
            keys,
        ).contains(k) by {
            if k == keys.last() {
                if !rest.contains(k) {
                    assert(distinct_keys(keys) == rest.push(k));
                    assert(distinct_keys(keys)[rest.len() as int] == k);
                }
            } else {
                assert(key_count(keys.drop_last(), k) > 0);
                assert(rest.contains(k));
                let a = choose|a: int| 0 <= a < rest.len() && rest[a] == k;
                assert(distinct_keys(keys)[a] == k);
            }
        }
        assert forall|a: int, b: int|
            0 <= a < b < distinct_keys(keys).len() implies distinct_keys(keys)[a]
            != distinct_keys(keys)[b] by {
            if b < rest.len() {
            } else {
                assert(!rest.contains(keys.last()));
                assert(distinct_keys(keys)[a] == rest[a]);
                assert(rest.contains(rest[a]));
            }
        }
    }
}

/// Replacing one entry by one whose count is one higher raises the total by
/// one.
proof fn lemma_sum_update(entries: Seq<CountEntryView>, j: int, e: CountEntryView)
    requires
        0 <= j < entries.len(),
        e.count == entries[j].count + 1,
    ensures
        sum_counts(entries.update(j, e)) == sum_counts(entries) + 1,
    decreases entries.len(),
{
    if j == entries.len() - 1 {
        assert(entries.update(j, e).drop_last() =~= entries.drop_last());
        assert(entries.update(j, e).last() == e);
    } else {
        assert(entries.update(j, e).drop_last() =~= entries.drop_last().update(j, e));
        assert(entries.update(j, e).last() == entries.last());
        lemma_sum_update(entries.drop_last(), j, e);
    }
}

/// Index of the entry with the given key, if one exists.
fn find_key(tally: &Vec<CountEntry>, key: &String) -> (r: Option<usize>)
    ensures
        match r {
            Some(j) => j < tally@.len() && tally.deep_view()[j as int].key == key@,
            None => forall|q: int| 0 <= q < tally@.len() ==> tally.deep_view()[q].key != key@,
        },
{
    let n = tally.len();
    let mut j: usize = 0;
    while j < n
        invariant
            j <= n,
            n == tally@.len(),
            forall|q: int| 0 <= q < j ==> tally.deep_view()[q].key != key@,
        decreases n - j,
    {
        if tally[j].key == *key {
            return Some(j);
        }
        j += 1;
    }
    None
}

/// Tally the keys: one entry per distinct key in first-occurrence order,
/// counting its occurrences; the counts add up to the number of keys.
pub fn tally_keys(keys: &Vec<String>) -> (r: Vec<CountEntry>)
    ensures
        r.deep_view().len() == distinct_keys(keys.deep_view()).len(),
        forall|q: int| 0 <= q < r.deep_view().len() ==> {
            let e = #[trigger] r.deep_view()[q];
            &&& e.key == distinct_keys(keys.deep_view())[q]
            &&& e.count == key_count(keys.deep_view(), e.key)
            &&& e.count > 0
        },
        sum_counts(r.deep_view()) == keys.deep_view().len(),
{
    let ghost keysv = keys.deep_view();
    let n = keys.len();
    let mut tally: Vec<CountEntry> = Vec::new();
    let mut i: usize = 0;
    while i < n
        invariant
            i <= n,
            n == keys@.len(),
            keysv == keys.deep_view(),
            tally.deep_view().len() == distinct_keys(keysv.take(i as int)).len(),
            forall|q: int| 0 <= q < tally.deep_view().len() ==> {
                let e = #[trigger] tally.deep_view()[q];
                &&& e.key == distinct_keys(keysv.take(i as int))[q]
                &&& e.count == key_count(keysv.take(i as int), e.key)
                &&& e.count > 0
            },
            sum_counts(tally.deep_view()) == i,
        decreases n - i,
    {
        let ghost prefix = keysv.take(i as int);
        let ghost next = keysv.take(i + 1);
        proof {
            assert(next.drop_last() =~= prefix);
            assert(next.last() == keysv[i as int]);
            assert(keysv[i as int] == keys@[i as int]@);
            lemma_distinct_keys_props(prefix);
        }
        let key = &keys[i];
        let ghost keyv = key@;
        let ghost tallyv = tally.deep_view();
        let found = find_key(&tally, key);
        match found {
            Some(j) => {
                proof {
                    assert(distinct_keys(prefix).contains(keyv)) by {
                        assert(distinct_keys(prefix)[j as int] == keyv);
                    }
                    assert(distinct_keys(next) == distinct_keys(prefix));
                }
                let e = tally.remove(j);
                let count = e.count;
                proof {
                    assert(tallyv[j as int].count == key_count(prefix, keyv));
                    lemma_key_count_bounds(prefix, keyv);
                }
                let updated = CountEntry { key: e.key, count: count + 1 };
                tally.insert(j, updated);
                proof {
                    assert(tally.deep_view() =~= tallyv.update(j as int, updated@));
                    lemma_sum_update(tallyv, j as int, updated@);
                    assert forall|q: int| 0 <= q < tally.deep_view().len() implies {
                        let e2 = #[trigger] tally.deep_view()[q];
                        &&& e2.key == distinct_keys(next)[q]
                        &&& e2.count == key_count(next, e2.key)
                        &&& e2.count > 0
                    } by {
                        if q == j {
                        } else {
                            assert(tally.deep_view()[q] == tallyv[q]);
                            assert(tallyv[q].key != keyv);
                        }
                    }
                }
            },
            None => {
                proof {
                    assert(!distinct_keys(prefix).contains(keyv)) by {
                        if distinct_keys(prefix).contains(keyv) {
                            let a = choose|a: int|
                                0 <= a < distinct_keys(prefix).len() && distinct_keys(
                                    prefix,
                                )[a] == keyv;
                            assert(tallyv[a].key == keyv);
                        }
                    }
                    assert(distinct_keys(next) == distinct_keys(prefix).push(keyv));
                    assert(key_count(prefix, keyv) <= 0);
                    lemma_key_count_bounds(prefix, keyv);
                }
                let fresh = CountEntry { key: key.clone(), count: 1 };
                tally.push(fresh);
                proof {
                    assert(tally.deep_view() =~= tallyv.push(fresh@));
                    assert(tally.deep_view().drop_last() =~= tallyv);
                    assert forall|q: int| 0 <= q < tally.deep_view().len() implies {
                        let e2 = #[trigger] tally.deep_view()[q];
                        &&& e2.key == distinct_keys(next)[q]
                        &&& e2.count == key_count(next, e2.key)
                        &&& e2.count > 0
                    } by {
                        if q < tallyv.len() {
                            assert(tally.deep_view()[q] == tallyv[q]);
                            assert(distinct_keys(next)[q] == distinct_keys(prefix)[q]);
                        } else {
                            assert(tally.deep_view()[q] == fresh@);
                        }
                    }
                }
            },
        }
        i += 1;
    }
    proof {
        assert(keysv.take(n as int) =~= keysv);
    }
    tally
}

/// A tally entry paired with its position in the tally, which is its key's
/// first-occurrence rank and so the tie-break for ranking.
pub struct Ranked {
    pub pos: usize,
    pub entry: CountEntry,
}

impl View for Ranked {
    type V = (int, CountEntryView);

    open spec fn view(&self) -> (int, CountEntryView) {
        (self.pos as int, self.entry@)
    }
}

impl DeepView for Ranked {
    type V = (int, CountEntryView);

    open spec fn deep_view(&self) -> (int, CountEntryView) {
        self.view()
    }
}

/// Strict ranking order: higher count first, ties broken by the earlier
/// position. Entries with distinct positions are always ordered.
pub open spec fn rank_before(a: (int, CountEntryView), b: (int, CountEntryView)) -> bool {
    a.1.count > b.1.count || (a.1.count == b.1.count && a.0 < b.0)
}

/// Insert `e` into the ranked sequence `s` before the first entry it ranks
/// before.
pub open spec fn insert_ranked(e: (int, CountEntryView), s: Seq<(int, CountEntryView)>) -> Seq<
    (int, CountEntryView),
>
    decreases s.len(),
{
    if s.len() == 0 {
        seq![e]
    } else if rank_before(e, s[0]) {
        seq![e] + s
    } else {
        seq![s[0]] + insert_ranked(e, s.drop_first())
    }
}

/// Sort the ranked sequence by [`rank_before`].
pub open spec fn sort_ranked(s: Seq<(int, CountEntryView)>) -> Seq<(int, CountEntryView)>
    decreases s.len(),
{
    if s.len() == 0 {
        seq![]
    } else {
        insert_ranked(s.last(), sort_ranked(s.drop_last()))
    }
}

/// Each entry paired with its position.
pub open spec fn indexed(entries: Seq<CountEntryView>) -> Seq<(int, CountEntryView)> {
    Seq::new(entries.len(), |q: int| (q, entries[q]))
}

/// The ranking's top entries: the first `cap` of the sorted tally, without
/// their positions.
pub open spec fn top_entries(entries: Seq<CountEntryView>, cap: int) -> Seq<CountEntryView> {
    let sorted = sort_ranked(indexed(entries));
    let take_len = if sorted.len() <= cap {
        sorted.len() as int
    } else {
        cap
    };
    sorted.take(take_len).map_values(|p: (int, CountEntryView)| p.1)
}

/// Runtime test for [`rank_before`].
fn rank_before_exec(a: &Ranked, b: &Ranked) -> (r: bool)
    ensures
        r == rank_before(a@, b@),
{
    a.entry.count > b.entry.count || (a.entry.count == b.entry.count && a.pos < b.pos)
}

/// Inserting where the scan stopped is the specified insertion.
proof fn lemma_insert_ranked_at(
    e: (int, CountEntryView),
    s: Seq<(int, CountEntryView)>,
    j: int,
)
    requires
        0 <= j <= s.len(),
        forall|q: int| 0 <= q < j ==> !rank_before(e, #[trigger] s[q]),
        j < s.len() ==> rank_before(e, s[j]),
    ensures
        insert_ranked(e, s) == s.take(j) + seq![e] + s.skip(j),
    decreases s.len(),
{
    if s.len() == 0 {
        assert(s.take(0) + seq![e] + s.skip(0) =~= seq![e]);
    } else if j == 0 {
        assert(s.take(0) + seq![e] + s.skip(0) =~= seq![e] + s);
    } else {
        assert(!rank_before(e, s[0]));
        lemma_insert_ranked_at(e, s.drop_first(), j - 1);
        assert(s.drop_first().take(j - 1) =~= s.take(j).drop_first());
        assert(s.drop_first().skip(j - 1) =~= s.skip(j));
        assert(seq![s[0]] + (s.drop_first().take(j - 1) + seq![e] + s.drop_first().skip(j - 1))
            =~= s.take(j) + seq![e] + s.skip(j));
    }
}

/// The position before which `ins` ranks: the first entry it ranks before,
/// or the end.
fn find_rank_pos(sorted: &Vec<Ranked>, ins: &Ranked) -> (j: usize)
    ensures
        j <= sorted@.len(),
        forall|q: int| 0 <= q < j ==> !rank_before(ins@, #[trigger] sorted.deep_view()[q]),
        j < sorted@.len() ==> rank_before(ins@, sorted.deep_view()[j as int]),
{
    let m = sorted.len();
    let mut j: usize = 0;
    while j < m
        invariant
            j <= m,
            m == sorted@.len(),
            forall|q: int| 0 <= q < j ==> !rank_before(
                ins@,
                #[trigger] sorted.deep_view()[q],
            ),
        decreases m - j,
    {
        if rank_before_exec(ins, &sorted[j]) {
            return j;
        }
        j += 1;
    }
    j
}

/// Rank the tally and keep its top `cap` entries.
pub fn top_ranked(entries: &Vec<CountEntry>, cap: usize) -> (r: Vec<CountEntry>)
    ensures
        r.deep_view() == top_entries(entries.deep_view(), cap as int),
{
    let ghost entriesv = entries.deep_view();
    let n = entries.len();
    let mut sorted: Vec<Ranked> = Vec::new();
    let mut i: usize = 0;
    while i < n
        invariant
            i <= n,
            n == entries@.len(),
            entriesv == entries.deep_view(),
            sorted.deep_view() == sort_ranked(indexed(entriesv.take(i as int))),
            sorted@.len() <= i,
        decreases n - i,
    {
        let ins = Ranked { pos: i, entry: entries[i].duplicate() };
        let ghost sortedv = sorted.deep_view();
        let j = find_rank_pos(&sorted, &ins);
        proof {
            lemma_insert_ranked_at(ins@, sortedv, j as int);
        }
        sorted.insert(j, ins);
        proof {
            assert(sorted.deep_view() =~= sortedv.take(j as int) + seq![ins@] + sortedv.skip(
                j as int,
            ));
            assert(indexed(entriesv.take(i + 1)).drop_last() =~= indexed(
                entriesv.take(i as int),
            ));
            assert(indexed(entriesv.take(i + 1)).last() == ins@);
            assert(sorted.deep_view() == insert_ranked(
                ins@,
                sort_ranked(indexed(entriesv.take(i as int))),
            ));
        }
        i += 1;
    }
    proof {
        assert(entriesv.take(n as int) =~= entriesv);
    }
    let cut = if sorted.len() <= cap {
        sorted.len()
    } else {
        cap
    };
    let mut out: Vec<CountEntry> = Vec::new();
    let mut t: usize = 0;
    while t < cut
        invariant
            t <= cut,
            cut <= sorted@.len(),
            sorted.deep_view() == sort_ranked(indexed(entriesv)),
            out.deep_view().len() == t,
            forall|q: int| 0 <= q < t ==> #[trigger] out.deep_view()[q]
                == sorted.deep_view()[q].1,
        decreases cut - t,
    {
        let ghost prev_dv = out.deep_view();
        let e = sorted[t].entry.duplicate();
        out.push(e);
        proof {
            assert(out.deep_view() =~= prev_dv.push(e@));
            assert(e@ == sorted.deep_view()[t as int].1);
        }
        t += 1;
    }
    proof {
        assert(out.deep_view() =~= top_entries(entriesv, cap as int));
    }
    out
}

/// No later entry ranks before an earlier one.
pub open spec fn ranked_sorted(s: Seq<(int, CountEntryView)>) -> bool {
    forall|a: int, b: int| 0 <= a < b < s.len() ==> !rank_before(#[trigger] s[b], #[trigger] s[a])
}

/// Inserting into a sorted ranking keeps it sorted, grows it by one, and
/// adds exactly the inserted entry.
proof fn lemma_insert_ranked_correct(e: (int, CountEntryView), s: Seq<(int, CountEntryView)>)
    requires
        ranked_sorted(s),
    ensures
        insert_ranked(e, s).len() == s.len() + 1,
        ranked_sorted(insert_ranked(e, s)),
        forall|x: (int, CountEntryView)| #[trigger] insert_ranked(e, s).contains(x) <==> (x == e
            || s.contains(x)),
    decreases s.len(),
{
    let r = insert_ranked(e, s);
    if s.len() == 0 {
        assert forall|x: (int, CountEntryView)| #[trigger] r.contains(x) implies (x == e
            || s.contains(x)) by {
            let q = choose|q: int| 0 <= q < r.len() && r[q] == x;
        }
        assert(r.contains(e)) by {
            assert(r[0] == e);
        }
    } else if rank_before(e, s[0]) {
        assert(r == seq![e] + s);
        assert forall|a: int, b: int| 0 <= a < b < r.len() implies !rank_before(
            r[b],
            r[a],
        ) by {
            if a == 0 {
                assert(r[b] == s[b - 1]);
                if b >= 2 {
                    assert(!rank_before(s[b - 1], s[0]));
                }
            } else {
                assert(r[a] == s[a - 1] && r[b] == s[b - 1]);
            }
        }
        assert forall|x: (int, CountEntryView)| #[trigger] r.contains(x) implies (x == e
            || s.contains(x)) by {
            let q = choose|q: int| 0 <= q < r.len() && r[q] == x;
            if q > 0 {
                assert(s[q - 1] == x);
            }
        }
        assert forall|x: (int, CountEntryView)| x == e || s.contains(x) implies #[trigger] r
            .contains(x) by {
            if x == e {
                assert(r[0] == x);
            } else {
                let q = choose|q: int| 0 <= q < s.len() && s[q] == x;
                assert(r[q + 1] == x);
            }
        }
    } else {
        let df = s.drop_first();
        assert(ranked_sorted(df)) by {
            assert(forall|a: int, b: int| 0 <= a < b < df.len() ==> df[a] == s[a + 1] && df[b]
                == s[b + 1]);
        }
        lemma_insert_ranked_correct(e, df);
        let rr = insert_ranked(e, df);
        assert(r == seq![s[0]] + rr);
        assert forall|a: int, b: int| 0 <= a < b < r.len() implies !rank_before(
            r[b],
            r[a],
        ) by {
            if a == 0 {
                assert(r[b] == rr[b - 1]);
                assert(rr.contains(rr[b - 1]));
                if rr[b - 1] == e {
                    assert(!rank_before(e, s[0]));
                } else {
                    assert(df.contains(rr[b - 1]));
                    let q = choose|q: int| 0 <= q < df.len() && df[q] == rr[b - 1];
                    assert(df[q] == s[q + 1]);
                    assert(!rank_before(s[q + 1], s[0]));
                }
            } else {
                assert(r[a] == rr[a - 1] && r[b] == rr[b - 1]);
            }
        }
        assert forall|x: (int, CountEntryView)| #[trigger] r.contains(x) implies (x == e
            || s.contains(x)) by {
            let q = choose|q: int| 0 <= q < r.len() && r[q] == x;
            if q == 0 {
                assert(s[0] == x);
            } else {
                assert(rr[q - 1] == x);
                assert(rr.contains(x));
                if x != e {
                    let w = choose|w: int| 0 <= w < df.len() && df[w] == x;
                    assert(s[w + 1] == x);
                }
            }
        }
        assert forall|x: (int, CountEntryView)| x == e || s.contains(x) implies #[trigger] r
            .contains(x) by {
            if x == e {
                assert(rr.contains(x));
                let w = choose|w: int| 0 <= w < rr.len() && rr[w] == x;
                assert(r[w + 1] == x);
            } else {
                let q = choose|q: int| 0 <= q < s.len() && s[q] == x;
                if q == 0 {
                    assert(r[0] == x);
                } else {
                    assert(df[q - 1] == x);
                    assert(df.contains(x));
                    assert(rr.contains(x));
                    let w = choose|w: int| 0 <= w < rr.len() && rr[w] == x;
                    assert(r[w + 1] == x);
                }
            }
        }
    }
}

/// The ranking is sound: the sorted tally is a rearrangement of the tally
/// in which no later entry ranks before an earlier one.
pub proof fn lemma_sort_ranked_correct(s: Seq<(int, CountEntryView)>)
    ensures
        sort_ranked(s).len() == s.len(),
        ranked_sorted(sort_ranked(s)),
        forall|x: (int, CountEntryView)| #[trigger] sort_ranked(s).contains(x) <==> s.contains(
            x,
        ),
    decreases s.len(),
{
    if s.len() > 0 {
        lemma_sort_ranked_correct(s.drop_last());
        lemma_insert_ranked_correct(s.last(), sort_ranked(s.drop_last()));
        assert forall|x: (int, CountEntryView)| #[trigger] sort_ranked(s).contains(
            x,
        ) implies s.contains(x) by {
            if x == s.last() {
                assert(s[s.len() - 1] == x);
            } else {
                assert(s.drop_last().contains(x));
                let q = choose|q: int| 0 <= q < s.drop_last().len() && s.drop_last()[q] == x;
                assert(s[q] == x);
            }
        }
        assert forall|x: (int, CountEntryView)| s.contains(x) implies #[trigger] sort_ranked(
            s,
        ).contains(x) by {
            let q = choose|q: int| 0 <= q < s.len() && s[q] == x;
            if q < s.len() - 1 {
                assert(s.drop_last()[q] == x);
                assert(s.drop_last().contains(x));
            }
        }
    }
}

/// Within the kept top entries the counts never rise: each entry's count is
/// at least each later entry's count.
pub proof fn lemma_top_entries_sorted(entries: Seq<CountEntryView>, cap: int, a: int, b: int)
    requires
        0 <= cap,
        0 <= a < b < top_entries(entries, cap).len(),
    ensures
        top_entries(entries, cap)[a].count >= top_entries(entries, cap)[b].count,
{
    lemma_sort_ranked_correct(indexed(entries));
    let sorted = sort_ranked(indexed(entries));
    let take_len = if sorted.len() <= cap {
        sorted.len() as int
    } else {
        cap
    };
    let top = top_entries(entries, cap);
    assert(top == sorted.take(take_len).map_values(|p: (int, CountEntryView)| p.1));
    assert(b < take_len <= sorted.len());
    assert(top[a] == sorted.take(take_len)[a].1);
    assert(top[b] == sorted.take(take_len)[b].1);
    assert(sorted.take(take_len)[a] == sorted[a]);
    assert(sorted.take(take_len)[b] == sorted[b]);
    assert(!rank_before(sorted[b], sorted[a]));
}

/// The number of files the ranking keeps.
pub open spec fn top_file_cap() -> int {
    5
}

/// The full summary of a scan's instances.
#[derive(Debug)]
pub struct Summary {
    /// Length of the instance sequence.
    pub total_instances: usize,
    /// Occurrences per marker name, first-occurrence order, every count
    /// positive.
    pub counts_by_marker: Vec<CountEntry>,
    /// Occurrences per file path, first-occurrence (discovery) order.
    pub counts_by_file: Vec<CountEntry>,
    /// The files with the highest counts, descending, ties broken by
    /// discovery order, at most five.
    pub top_files: Vec<CountEntry>,
}

/// Summarize the instances; an empty scan has no summary. The counts by
/// marker and by file each add up to the total, which is the number of
/// instances.
pub fn summarize(instances: &Vec<MarkerInstance>) -> (r: Option<Summary>)
    ensures
        r is None <==> instances.deep_view().len() == 0,
        r matches Some(s) ==> {
            let iv = instances.deep_view();
            &&& s.total_instances == iv.len()
            &&& s.counts_by_marker.deep_view().len() == distinct_keys(marker_names(iv)).len()
            &&& (forall|q: int| 0 <= q < s.counts_by_marker.deep_view().len() ==> {
                let e = #[trigger] s.counts_by_marker.deep_view()[q];
                &&& e.key == distinct_keys(marker_names(iv))[q]
                &&& e.count == key_count(marker_names(iv), e.key)
                &&& e.count > 0
            })
            &&& sum_counts(s.counts_by_marker.deep_view()) == iv.len()
            &&& s.counts_by_file.deep_view().len() == distinct_keys(file_paths(iv)).len()
            &&& (forall|q: int| 0 <= q < s.counts_by_file.deep_view().len() ==> {
                let e = #[trigger] s.counts_by_file.deep_view()[q];
                &&& e.key == distinct_keys(file_paths(iv))[q]
                &&& e.count == key_count(file_paths(iv), e.key)
                &&& e.count > 0
            })
            &&& sum_counts(s.counts_by_file.deep_view()) == iv.len()
            &&& s.top_files.deep_view() == top_entries(
                s.counts_by_file.deep_view(),
                top_file_cap(),
            )
        },
{
    let n = instances.len();
    if n == 0 {
        return None;
    }
    let ghost iv = instances.deep_view();
    let mut marker_keys: Vec<String> = Vec::new();
    let mut file_keys: Vec<String> = Vec::new();
    let mut i: usize = 0;
    while i < n
        invariant
            i <= n,
            n == instances@.len(),
            iv == instances.deep_view(),
            marker_keys.deep_view() == marker_names(iv.take(i as int)),
            file_keys.deep_view() == file_paths(iv.take(i as int)),
        decreases n - i,
    {
        let ghost mk_prev = marker_keys.deep_view();
        let ghost fk_prev = file_keys.deep_view();
        let inst = &instances[i];
        marker_keys.push(inst.marker_name.clone());
        file_keys.push(inst.file_path.clone());
        proof {
            assert(iv[i as int] == inst@);
            assert(marker_keys.deep_view() =~= mk_prev.push(inst.marker_name@));
            assert(file_keys.deep_view() =~= fk_prev.push(inst.file_path@));
            assert(marker_keys.deep_view() =~= marker_names(iv.take(i + 1)));
            assert(file_keys.deep_view() =~= file_paths(iv.take(i + 1)));
        }
        i += 1;
    }
    proof {
        assert(iv.take(n as int) =~= iv);
    }
    let counts_by_marker = tally_keys(&marker_keys);
    let counts_by_file = tally_keys(&file_keys);
    let top_files = top_ranked(&counts_by_file, 5);
    Some(
        Summary {
            total_instances: n,
            counts_by_marker,
            counts_by_file,
            top_files,
        },
    )
}

/// The instances, unchanged and in order; an empty scan has no listing.
pub fn list_all(instances: &Vec<MarkerInstance>) -> (r: Option<Vec<MarkerInstance>>)
    ensures
        r is None <==> instances.deep_view().len() == 0,
        r matches Some(v) ==> v.deep_view() == instances.deep_view(),
{
    let n = instances.len();
    if n == 0 {
        return None;
    }
    let mut out: Vec<MarkerInstance> = Vec::new();
    let mut i: usize = 0;
    while i < n
        invariant
            i <= n,
            n == instances@.len(),
            out.deep_view().len() == i,
            forall|q: int| 0 <= q < i ==> #[trigger] out.deep_view()[q]
                == instances.deep_view()[q],
        decreases n - i,
    {
        let ghost prev_dv = out.deep_view();
        let d = instances[i].duplicate();
        out.push(d);
        proof {
            assert(out.deep_view() =~= prev_dv.push(d@));
            assert(d@ == instances.deep_view()[i as int]);
        }
        i += 1;
    }
    proof {
        assert(out.deep_view() =~= instances.deep_view());
    }
    Some(out)
}

/// The requested marker names: the comma-separated fields of the request,
/// each trimmed of whitespace.
pub open spec fn parse_names(s: Seq<char>) -> Seq<Seq<char>> {
    split_on(s, ',').map_values(|t: Seq<char>| trimmed(t))
}

/// Runtime counterpart of [`parse_names`].
pub fn parse_name_list(s: &str) -> (r: Vec<String>)
    ensures
        r.deep_view() == parse_names(s@),
{
    let fields = split_str_on(s, ',');
    let n = fields.len();
    let mut out: Vec<String> = Vec::new();
    let mut i: usize = 0;
    while i < n
        invariant
            i <= n,
            n == fields@.len(),
            fields.deep_view() == split_on(s@, ','),
            out.deep_view().len() == i,
            forall|q: int| 0 <= q < i ==> #[trigger] out.deep_view()[q] == trimmed(
                fields.deep_view()[q],
            ),
        decreases n - i,
    {
        let ghost prev_dv = out.deep_view();
        let t = trim_str(fields[i].as_str());
        out.push(t);
        proof {
            assert(out.deep_view() =~= prev_dv.push(trimmed(fields.deep_view()[i as int])));
        }
        i += 1;
    }
    proof {
        assert(out.deep_view() =~= parse_names(s@));
    }
    out
}

/// The instances whose marker name is one of `names`, in order.
pub open spec fn filter_by_names(
    s: Seq<MarkerInstanceView>,
    names: Seq<Seq<char>>,
) -> Seq<MarkerInstanceView>
    decreases s.len(),
{
    if s.len() == 0 {
        seq![]
    } else {
        let rest = filter_by_names(s.drop_last(), names);
        if names.contains(s.last().marker_name) {
            rest.push(s.last())
        } else {
            rest
        }
    }
}

/// Whether `name` occurs in the list.
fn name_in_list(names: &Vec<String>, name: &String) -> (r: bool)
    ensures
        r == names.deep_view().contains(name@),
{
    let n = names.len();
    let mut i: usize = 0;
    while i < n
        invariant
            i <= n,
            n == names@.len(),
            forall|q: int| 0 <= q < i ==> names.deep_view()[q] != name@,
        decreases n - i,
    {
        if names[i] == *name {
            proof {
                assert(names.deep_view()[i as int] == name@);
            }
            return true;
        }
        i += 1;
    }
    proof {
        if names.deep_view().contains(name@) {
            let q = choose|q: int|
                0 <= q < names.deep_view().len() && names.deep_view()[q] == name@;
        }
    }
    false
}

/// Keep the instances whose marker name is in the comma-separated request;
/// a request that matches nothing is reported as no result.
pub fn search(instances: &Vec<MarkerInstance>, names_str: &str) -> (r: Option<
    Vec<MarkerInstance>,
>)
    ensures
        r is None <==> filter_by_names(instances.deep_view(), parse_names(names_str@)).len()
            == 0,
        r matches Some(v) ==> v.deep_view() == filter_by_names(
            instances.deep_view(),
            parse_names(names_str@),
        ),
{
    let ghost iv = instances.deep_view();
    let ghost namesv = parse_names(names_str@);
    let names = parse_name_list(names_str);
    let n = instances.len();
    let mut out: Vec<MarkerInstance> = Vec::new();
    let mut i: usize = 0;
    while i < n
        invariant
            i <= n,
            n == instances@.len(),
            iv == instances.deep_view(),
            names.deep_view() == namesv,
            out.deep_view() == filter_by_names(iv.take(i as int), namesv),
        decreases n - i,
    {
        let ghost prev_dv = out.deep_view();
        let inst = &instances[i];
        let keep = name_in_list(&names, &inst.marker_name);
        if keep {
            out.push(inst.duplicate());
        }
        proof {
            assert(iv.take(i + 1).drop_last() =~= iv.take(i as int));
            assert(iv.take(i + 1).last() == iv[i as int]);
            assert(iv[i as int] == inst@);
            if keep {
                assert(out.deep_view() =~= prev_dv.push(inst@));
            }
        }
        i += 1;
    }
    proof {
        assert(iv.take(n as int) =~= iv);
    }
    if out.is_empty() {
        None
    } else {
        Some(out)
    }
}

} // verus!
