use vstd::prelude::*;

verus! {

/// A character that may stand unescaped inside a JSON string. Tokens are
/// alphanumeric, so every key this library produces is made of such
/// characters; the table codec relies on it and never emits escapes.
pub open spec fn plain_char(c: char) -> bool {
    (c as u32) != 0x22 && (c as u32) != 0x5c && (c as u32) >= 0x20
}

pub open spec fn plain_key(k: Seq<char>) -> bool {
    forall|i: int| 0 <= i < k.len() ==> plain_char(#[trigger] k[i])
}

/// The invariant of a frequency table's entries: tokens are unique and
/// every count is at least one.
pub open spec fn wf_entries(es: Seq<(Seq<char>, u32)>) -> bool {
    &&& forall|i: int, j: int| 0 <= i < j < es.len() ==> (#[trigger] es[i]).0 != (
    #[trigger] es[j]).0
    &&& forall|i: int| 0 <= i < es.len() ==> (#[trigger] es[i]).1 >= 1
}

/// Every token is made only of characters the codec carries unescaped.
pub open spec fn plain_entries(es: Seq<(Seq<char>, u32)>) -> bool {
    forall|i: int| 0 <= i < es.len() ==> plain_key((#[trigger] es[i]).0)
}

/// Count one more occurrence of each token in turn: the table the map
/// step produces from a token sequence, tokens in order of first
/// appearance.
pub open spec fn count_tokens(toks: Seq<Seq<char>>) -> Seq<(Seq<char>, u32)>
    decreases toks.len(),
{
    if toks.len() == 0 {
        Seq::empty()
    } else {
        bump_entries(count_tokens(toks.drop_last()), toks.last(), 1)
    }
}

/// The key/value mapping an entry sequence denotes. When a key repeats,
/// its first entry wins; well-formed sequences have no repeats.
pub open spec fn entries_map(es: Seq<(Seq<char>, u32)>) -> Map<Seq<char>, u32>
    decreases es.len(),
{
    if es.len() == 0 {
        Map::empty()
    } else {
        entries_map(es.drop_first()).insert(es[0].0, es[0].1)
    }
}

/// Saturating addition of two counts.
pub open spec fn sat_add(a: u32, b: u32) -> u32 {
    if a + b > u32::MAX {
        u32::MAX
    } else {
        (a + b) as u32
    }
}

/// Add `v` occurrences of token `k`: the first entry holding `k` has its
/// count raised (saturating); a missing token is appended with count `v`.
pub open spec fn bump_entries(es: Seq<(Seq<char>, u32)>, k: Seq<char>, v: u32) -> Seq<
    (Seq<char>, u32),
>
    decreases es.len(),
{
    if es.len() == 0 {
        seq![(k, v)]
    } else if es[0].0 == k {
        seq![(es[0].0, sat_add(es[0].1, v))] + es.drop_first()
    } else {
        seq![es[0]] + bump_entries(es.drop_first(), k, v)
    }
}

/// Fold the second entry sequence into the first, token by token: the
/// reduce step's merge at the level of entry sequences.
pub open spec fn merge_entries(es1: Seq<(Seq<char>, u32)>, es2: Seq<(Seq<char>, u32)>) -> Seq<
    (Seq<char>, u32),
>
    decreases es2.len(),
{
    if es2.len() == 0 {
        es1
    } else {
        merge_entries(bump_entries(es1, es2[0].0, es2[0].1), es2.drop_first())
    }
}

/// Add `v` occurrences of `k` at the mapping level.
pub open spec fn bump_map(m: Map<Seq<char>, u32>, k: Seq<char>, v: u32) -> Map<Seq<char>, u32> {
    m.insert(
        k,
        if m.contains_key(k) {
            sat_add(m[k], v)
        } else {
            v
        },
    )
}

/// The merge of two mappings: counts of shared tokens add (saturating),
/// tokens of either side survive.
pub open spec fn merge_maps(m1: Map<Seq<char>, u32>, m2: Map<Seq<char>, u32>) -> Map<
    Seq<char>,
    u32,
> {
    Map::new(
        |k: Seq<char>| m1.contains_key(k) || m2.contains_key(k),
        |k: Seq<char>|
            if m1.contains_key(k) && m2.contains_key(k) {
                sat_add(m1[k], m2[k])
            } else if m1.contains_key(k) {
                m1[k]
            } else {
                m2[k]
            },
    )
}

/// The tokens of an entry sequence are exactly the domain of its mapping.
pub proof fn lemma_entries_map_keys(es: Seq<(Seq<char>, u32)>, k: Seq<char>)
    ensures
        entries_map(es).contains_key(k) <==> exists|i: int|
            0 <= i < es.len() && (#[trigger] es[i]).0 == k,
    decreases es.len(),
{
    if es.len() > 0 {
        lemma_entries_map_keys(es.drop_first(), k);
        if es[0].0 == k {
            assert(es[0].0 == k);
        } else if entries_map(es).contains_key(k) {
            let i = choose|i: int| 0 <= i < es.drop_first().len() && (#[trigger] es.drop_first()[i]).0
                == k;
            assert(es[i + 1].0 == k);
        } else {
            assert forall|i: int| 0 <= i < es.len() implies (#[trigger] es[i]).0 != k by {
                if i > 0 {
                    assert(es.drop_first()[i - 1] == es[i]);
                }
            }
        }
    }
}

/// In a sequence without repeated tokens, the mapping agrees with each entry.
pub proof fn lemma_entries_map_index(es: Seq<(Seq<char>, u32)>, i: int)
    requires
        forall|p: int, q: int| 0 <= p < q < es.len() ==> (#[trigger] es[p]).0 != (
        #[trigger] es[q]).0,
        0 <= i < es.len(),
    ensures
        entries_map(es).contains_key(es[i].0),
        entries_map(es)[es[i].0] == es[i].1,
    decreases es.len(),
{
    if i == 0 {
        lemma_entries_map_keys(es.drop_first(), es[0].0);
        assert forall|j: int| 0 <= j < es.drop_first().len() implies (
        #[trigger] es.drop_first()[j]).0 != es[0].0 by {
            assert(es.drop_first()[j] == es[j + 1]);
        }
    } else {
        assert forall|p: int, q: int| 0 <= p < q < es.drop_first().len() implies (
        #[trigger] es.drop_first()[p]).0 != (#[trigger] es.drop_first()[q]).0 by {
            assert(es.drop_first()[p] == es[p + 1]);
            assert(es.drop_first()[q] == es[q + 1]);
        }
        lemma_entries_map_index(es.drop_first(), i - 1);
        assert(es.drop_first()[i - 1] == es[i]);
        assert(es[0].0 != es[i].0);
    }
}

/// Bumping an entry sequence is bumping its mapping.
pub proof fn lemma_bump_entries_map(es: Seq<(Seq<char>, u32)>, k: Seq<char>, v: u32)
    ensures
        entries_map(bump_entries(es, k, v)) =~= bump_map(entries_map(es), k, v),
    decreases es.len(),
{
    if es.len() == 0 {
        let r = bump_entries(es, k, v);
        assert(r =~~= seq![(k, v)]);
        assert(r[0] == (k, v));
        assert(r.drop_first() =~~= Seq::<(Seq<char>, u32)>::empty());
        assert(entries_map(r) == entries_map(r.drop_first()).insert(k, v));
        assert(entries_map(r.drop_first()) == Map::<Seq<char>, u32>::empty());
        assert(entries_map(es) == Map::<Seq<char>, u32>::empty());
        assert(entries_map(bump_entries(es, k, v)) =~= bump_map(entries_map(es), k, v));
    } else if es[0].0 == k {
        let r = seq![(es[0].0, sat_add(es[0].1, v))] + es.drop_first();
        assert(r[0] == (es[0].0, sat_add(es[0].1, v)));
        assert(r.drop_first() =~~= es.drop_first());
        assert(entries_map(bump_entries(es, k, v)) =~= bump_map(entries_map(es), k, v));
    } else {
        lemma_bump_entries_map(es.drop_first(), k, v);
        let r = seq![es[0]] + bump_entries(es.drop_first(), k, v);
        assert(r[0] == es[0]);
        assert(r.drop_first() =~~= bump_entries(es.drop_first(), k, v));
        assert(entries_map(bump_entries(es, k, v)) =~= bump_map(entries_map(es), k, v));
    }
}

/// Bumping preserves the table invariant.
pub proof fn lemma_bump_entries_wf(es: Seq<(Seq<char>, u32)>, k: Seq<char>, v: u32)
    requires
        wf_entries(es),
        v >= 1,
    ensures
        wf_entries(bump_entries(es, k, v)),
    decreases es.len(),
{
    let r = bump_entries(es, k, v);
    if es.len() == 0 {
        assert(r[0] == (k, v));
    } else if es[0].0 == k {
        assert forall|i: int, j: int| 0 <= i < j < r.len() implies (#[trigger] r[i]).0 != (
        #[trigger] r[j]).0 by {
            assert(r[i].0 == es[i].0);
            assert(r[j].0 == es[j].0);
        }
        assert forall|i: int| 0 <= i < r.len() implies (#[trigger] r[i]).1 >= 1 by {
            assert(es[i].1 >= 1);
            if i == 0 {
                assert(r[0].1 == sat_add(es[0].1, v));
            } else {
                assert(r[i] == es[i]);
            }
        }
    } else {
        assert forall|p: int, q: int| 0 <= p < q < es.drop_first().len() implies (
        #[trigger] es.drop_first()[p]).0 != (#[trigger] es.drop_first()[q]).0 by {
            assert(es.drop_first()[p] == es[p + 1]);
            assert(es.drop_first()[q] == es[q + 1]);
        }
        assert forall|p: int| 0 <= p < es.drop_first().len() implies (
        #[trigger] es.drop_first()[p]).1 >= 1 by {
            assert(es.drop_first()[p] == es[p + 1]);
        }
        lemma_bump_entries_wf(es.drop_first(), k, v);
        let rr = bump_entries(es.drop_first(), k, v);
        lemma_bump_entries_map(es.drop_first(), k, v);
        assert forall|i: int, j: int| 0 <= i < j < r.len() implies (#[trigger] r[i]).0 != (
        #[trigger] r[j]).0 by {
            if i == 0 {
                assert(r[j].0 == rr[j - 1].0);
                lemma_entries_map_keys(rr, es[0].0);
                lemma_entries_map_keys(es.drop_first(), es[0].0);
                if rr[j - 1].0 == es[0].0 {
                    assert(entries_map(rr).contains_key(es[0].0));
                    let t = choose|t: int| 0 <= t < es.drop_first().len() && (
                    #[trigger] es.drop_first()[t]).0 == es[0].0;
                    assert(es[t + 1].0 == es[0].0);
                }
            } else {
                assert(r[i].0 == rr[i - 1].0);
                assert(r[j].0 == rr[j - 1].0);
            }
        }
        assert forall|i: int| 0 <= i < r.len() implies (#[trigger] r[i]).1 >= 1 by {
            if i == 0 {
                assert(r[0] == es[0]);
                assert(es[0].1 >= 1);
            } else {
                assert(r[i] == rr[i - 1]);
            }
        }
    }
}

/// Bumping with a plain token keeps every token plain.
pub proof fn lemma_bump_entries_plain(es: Seq<(Seq<char>, u32)>, k: Seq<char>, v: u32)
    requires
        plain_entries(es),
        plain_key(k),
    ensures
        plain_entries(bump_entries(es, k, v)),
    decreases es.len(),
{
    let r = bump_entries(es, k, v);
    if es.len() == 0 {
        assert(r[0] == (k, v));
    } else if es[0].0 == k {
        assert forall|i: int| 0 <= i < r.len() implies plain_key((#[trigger] r[i]).0) by {
            assert(r[i].0 == es[i].0);
            assert(plain_key(es[i].0));
        }
    } else {
        assert forall|p: int| 0 <= p < es.drop_first().len() implies plain_key((
        #[trigger] es.drop_first()[p]).0) by {
            assert(es.drop_first()[p] == es[p + 1]);
        }
        lemma_bump_entries_plain(es.drop_first(), k, v);
        let rr = bump_entries(es.drop_first(), k, v);
        assert forall|i: int| 0 <= i < r.len() implies plain_key((#[trigger] r[i]).0) by {
            if i == 0 {
                assert(r[0] == es[0]);
            } else {
                assert(r[i] == rr[i - 1]);
            }
        }
    }
}

/// Merging preserves the table invariant.
pub proof fn lemma_merge_entries_wf(es1: Seq<(Seq<char>, u32)>, es2: Seq<(Seq<char>, u32)>)
    requires
        wf_entries(es1),
        wf_entries(es2),
    ensures
        wf_entries(merge_entries(es1, es2)),
    decreases es2.len(),
{
    if es2.len() > 0 {
        assert(es2[0].1 >= 1);
        lemma_bump_entries_wf(es1, es2[0].0, es2[0].1);
        assert forall|p: int, q: int| 0 <= p < q < es2.drop_first().len() implies (
        #[trigger] es2.drop_first()[p]).0 != (#[trigger] es2.drop_first()[q]).0 by {
            assert(es2.drop_first()[p] == es2[p + 1]);
            assert(es2.drop_first()[q] == es2[q + 1]);
        }
        assert forall|p: int| 0 <= p < es2.drop_first().len() implies (
        #[trigger] es2.drop_first()[p]).1 >= 1 by {
            assert(es2.drop_first()[p] == es2[p + 1]);
        }
        lemma_merge_entries_wf(bump_entries(es1, es2[0].0, es2[0].1), es2.drop_first());
    }
}

/// The table a token count produces satisfies the table invariant.
pub proof fn lemma_count_tokens_wf(toks: Seq<Seq<char>>)
    ensures
        wf_entries(count_tokens(toks)),
    decreases toks.len(),
{
    if toks.len() > 0 {
        lemma_count_tokens_wf(toks.drop_last());
        lemma_bump_entries_wf(count_tokens(toks.drop_last()), toks.last(), 1);
    }
}

proof fn lemma_merge_bump_insert(m1: Map<Seq<char>, u32>, mr: Map<Seq<char>, u32>, k: Seq<char>, v: u32)
    requires
        !mr.contains_key(k),
    ensures
        merge_maps(bump_map(m1, k, v), mr) =~= merge_maps(m1, mr.insert(k, v)),
{
}

/// Merging entry sequences is merging their mappings.
pub proof fn lemma_merge_entries_map(es1: Seq<(Seq<char>, u32)>, es2: Seq<(Seq<char>, u32)>)
    requires
        forall|p: int, q: int| 0 <= p < q < es2.len() ==> (#[trigger] es2[p]).0 != (
        #[trigger] es2[q]).0,
    ensures
        entries_map(merge_entries(es1, es2)) =~= merge_maps(entries_map(es1), entries_map(es2)),
    decreases es2.len(),
{
    if es2.len() == 0 {
        assert(merge_maps(entries_map(es1), Map::empty()) =~= entries_map(es1));
    } else {
        let k = es2[0].0;
        let v = es2[0].1;
        let rest = es2.drop_first();
        assert forall|p: int, q: int| 0 <= p < q < rest.len() implies (#[trigger] rest[p]).0 != (
        #[trigger] rest[q]).0 by {
            assert(rest[p] == es2[p + 1]);
            assert(rest[q] == es2[q + 1]);
        }
        lemma_merge_entries_map(bump_entries(es1, k, v), rest);
        lemma_bump_entries_map(es1, k, v);
        lemma_entries_map_keys(rest, k);
        assert forall|t: int| 0 <= t < rest.len() implies (#[trigger] rest[t]).0 != k by {
            assert(rest[t] == es2[t + 1]);
        }
        lemma_merge_bump_insert(entries_map(es1), entries_map(rest), k, v);
        assert(entries_map(es2) == entries_map(rest).insert(k, v));
    }
}

/// The merge of two tables does not depend on their order: the reduce
/// step is commutative at the key/value level.
pub proof fn lemma_merge_commutative(es1: Seq<(Seq<char>, u32)>, es2: Seq<(Seq<char>, u32)>)
    requires
        wf_entries(es1),
        wf_entries(es2),
    ensures
        entries_map(merge_entries(es1, es2)) == entries_map(merge_entries(es2, es1)),
{
    lemma_merge_entries_map(es1, es2);
    lemma_merge_entries_map(es2, es1);
    assert(merge_maps(entries_map(es1), entries_map(es2)) =~= merge_maps(
        entries_map(es2),
        entries_map(es1),
    ));
}

/// The merge of tables is associative at the key/value level: partial
/// tables may be folded pairwise in any grouping.
pub proof fn lemma_merge_associative(
    es1: Seq<(Seq<char>, u32)>,
    es2: Seq<(Seq<char>, u32)>,
    es3: Seq<(Seq<char>, u32)>,
)
    requires
        wf_entries(es1),
        wf_entries(es2),
        wf_entries(es3),
    ensures
        entries_map(merge_entries(merge_entries(es1, es2), es3)) == entries_map(
            merge_entries(es1, merge_entries(es2, es3)),
        ),
{
    lemma_merge_entries_wf(es1, es2);
    lemma_merge_entries_wf(es2, es3);
    lemma_merge_entries_map(merge_entries(es1, es2), es3);
    lemma_merge_entries_map(es1, es2);
    lemma_merge_entries_map(es1, merge_entries(es2, es3));
    lemma_merge_entries_map(es2, es3);
    assert(merge_maps(
        merge_maps(entries_map(es1), entries_map(es2)),
        entries_map(es3),
    ) =~= merge_maps(entries_map(es1), merge_maps(entries_map(es2), entries_map(es3))));
}

/// Folding one more table into an accumulated merge.
pub proof fn lemma_merge_entries_push(
    es1: Seq<(Seq<char>, u32)>,
    es2: Seq<(Seq<char>, u32)>,
    e: (Seq<char>, u32),
)
    ensures
        merge_entries(es1, es2.push(e)) == bump_entries(merge_entries(es1, es2), e.0, e.1),
    decreases es2.len(),
{
    if es2.len() == 0 {
        let x = es2.push(e);
        assert(x[0] == e);
        assert(x.drop_first() =~~= Seq::<(Seq<char>, u32)>::empty());
        assert(merge_entries(es1, x) == merge_entries(bump_entries(es1, e.0, e.1), x.drop_first()));
        assert(merge_entries(bump_entries(es1, e.0, e.1), x.drop_first()) == bump_entries(
            es1,
            e.0,
            e.1,
        ));
        assert(merge_entries(es1, es2) == es1);
    } else {
        assert(es2.push(e)[0] == es2[0]);
        assert(es2.push(e).drop_first() =~~= es2.drop_first().push(e));
        lemma_merge_entries_push(bump_entries(es1, es2[0].0, es2[0].1), es2.drop_first(), e);
        assert(merge_entries(es1, es2.push(e)) == bump_entries(merge_entries(es1, es2), e.0, e.1));
    }
}

/// A frequency table: each case-normalized token with how often it
/// occurred. Tokens are unique, counts are at least one, and every token
/// is made of characters the JSON codec can carry without escapes.
pub struct FreqTable {
    keys: Vec<String>,
    counts: Vec<u32>,
}

impl View for FreqTable {
    type V = Seq<(Seq<char>, u32)>;

    closed spec fn view(&self) -> Seq<(Seq<char>, u32)> {
        Seq::new(self.keys@.len(), |i: int| (self.keys@[i]@, self.counts@[i]))
    }
}

impl FreqTable {
    pub closed spec fn wf(&self) -> bool {
        &&& self.keys@.len() == self.counts@.len()
        &&& wf_entries(self@)
        &&& plain_entries(self@)
    }

    /// A well-formed table satisfies the entry-sequence invariant, and
    /// every token it holds is plain.
    pub proof fn lemma_wf(&self)
        requires
            self.wf(),
        ensures
            wf_entries(self@),
            plain_entries(self@),
    {
    }

    /// The empty table.
    pub fn new() -> (t: FreqTable)
        ensures
            t.wf(),
            t@ == Seq::<(Seq<char>, u32)>::empty(),
    {
        let t = FreqTable { keys: Vec::new(), counts: Vec::new() };
        proof {
            assert(t@ =~= Seq::<(Seq<char>, u32)>::empty());
        }
        t
    }

    /// How many distinct tokens the table holds.
    pub fn len(&self) -> (n: usize)
        ensures
            n == self@.len(),
    {
        self.keys.len()
    }

    /// The token of the entry at `i`.
    pub fn key_at(&self, i: usize) -> (k: &String)
        requires
            i < self@.len(),
        ensures
            k@ == self@[i as int].0,
    {
        &self.keys[i]
    }

    /// The count of the entry at `i`.
    pub fn count_at(&self, i: usize) -> (v: u32)
        requires
            self.wf(),
            i < self@.len(),
        ensures
            v == self@[i as int].1,
    {
        self.counts[i]
    }

    /// Look a token up; `None` exactly when the table does not hold it.
    pub fn get(&self, k: &String) -> (r: Option<u32>)
        requires
            self.wf(),
        ensures
            match r {
                Some(v) => entries_map(self@).contains_key(k@) && entries_map(self@)[k@] == v,
                None => !entries_map(self@).contains_key(k@),
            },
    {
        let n = self.keys.len();
        let mut i: usize = 0;
        while i < n
            invariant
                self.wf(),
                n == self@.len(),
                i <= n,
                forall|j: int| 0 <= j < i ==> (#[trigger] self@[j]).0 != k@,
            decreases n - i,
        {
            if self.keys[i] == *k {
                proof {
                    lemma_entries_map_index(self@, i as int);
                }
                return Some(self.counts[i]);
            }
            i = i + 1;
        }
        proof {
            lemma_entries_map_keys(self@, k@);
        }
        None
    }

    /// Add `v` occurrences of token `k`, raising an existing count
    /// (saturating) or appending a new entry.
    pub fn bump(&mut self, k: String, v: u32)
        requires
            old(self).wf(),
            v >= 1,
            plain_key(k@),
        ensures
            final(self).wf(),
            final(self)@ == bump_entries(old(self)@, k@, v),
    {
        proof {
            lemma_bump_entries_wf(old(self)@, k@, v);
            lemma_bump_entries_plain(old(self)@, k@, v);
        }
        let n = self.keys.len();
        let mut i: usize = 0;
        while i < n
            invariant
                self == old(self),
                self.wf(),
                n == self@.len(),
                i <= n,
                forall|j: int| 0 <= j < i ==> (#[trigger] self@[j]).0 != k@,
            decreases n - i,
        {
            if self.keys[i] == *(&k) {
                let c = self.counts[i];
                self.counts[i] = c.saturating_add(v);
                proof {
                    assert(self@ =~= old(self)@.update(i as int, (k@, sat_add(c, v))));
                    lemma_bump_found(old(self)@, k@, v, i as int);
                }
                return ;
            }
            i = i + 1;
        }
        self.keys.push(k);
        self.counts.push(v);
        proof {
            let kk = self.keys@[self.keys@.len() - 1]@;
            assert(self@ =~= old(self)@.push((kk, v)));
            lemma_bump_absent(old(self)@, kk, v);
        }
    }

    /// Append an entry for a token the table does not hold yet.
    pub fn push_new(&mut self, k: String, v: u32)
        requires
            old(self).wf(),
            v >= 1,
            plain_key(k@),
            forall|j: int| 0 <= j < old(self)@.len() ==> (#[trigger] old(self)@[j]).0 != k@,
        ensures
            final(self).wf(),
            final(self)@ == old(self)@.push((k@, v)),
    {
        self.keys.push(k);
        self.counts.push(v);
        proof {
            let kk = self.keys@[self.keys@.len() - 1]@;
            assert(self@ =~= old(self)@.push((kk, v)));
        }
    }

    /// Fold every entry of `other` into this table: the reduce merge.
    pub fn merge_from(&mut self, other: &FreqTable)
        requires
            old(self).wf(),
            other.wf(),
        ensures
            final(self).wf(),
            final(self)@ == merge_entries(old(self)@, other@),
    {
        let n = other.len();
        let mut i: usize = 0;
        while i < n
            invariant
                self.wf(),
                other.wf(),
                n == other@.len(),
                i <= n,
                self@ == merge_entries(old(self)@, other@.take(i as int)),
            decreases n - i,
        {
            let k = other.key_at(i).clone();
            let v = other.count_at(i);
            proof {
                assert(other@[i as int].1 >= 1);
                assert(plain_key(other@[i as int].0));
            }
            self.bump(k, v);
            proof {
                assert(other@.take(i + 1) =~= other@.take(i as int).push(other@[i as int]));
                lemma_merge_entries_push(
                    old(self)@,
                    other@.take(i as int),
                    other@[i as int],
                );
            }
            i = i + 1;
        }
        proof {
            assert(other@.take(n as int) =~= other@);
        }
    }
}

/// Bumping a token that first occurs at index `i` only updates that entry.
proof fn lemma_bump_found(es: Seq<(Seq<char>, u32)>, k: Seq<char>, v: u32, i: int)
    requires
        0 <= i < es.len(),
        es[i].0 == k,
        forall|j: int| 0 <= j < i ==> (#[trigger] es[j]).0 != k,
    ensures
        bump_entries(es, k, v) =~= es.update(i, (k, sat_add(es[i].1, v))),
    decreases i,
{
    if i == 0 {
        assert(bump_entries(es, k, v) == seq![(es[0].0, sat_add(es[0].1, v))] + es.drop_first());
    } else {
        assert(es[0].0 != k);
        assert(es.drop_first()[i - 1] == es[i]);
        assert forall|j: int| 0 <= j < i - 1 implies (#[trigger] es.drop_first()[j]).0 != k by {
            assert(es.drop_first()[j] == es[j + 1]);
        }
        lemma_bump_found(es.drop_first(), k, v, i - 1);
    }
}

/// Bumping an absent token appends it.
proof fn lemma_bump_absent(es: Seq<(Seq<char>, u32)>, k: Seq<char>, v: u32)
    requires
        forall|j: int| 0 <= j < es.len() ==> (#[trigger] es[j]).0 != k,
    ensures
        bump_entries(es, k, v) =~= es.push((k, v)),
    decreases es.len(),
{
    if es.len() > 0 {
        assert forall|j: int| 0 <= j < es.drop_first().len() implies (
        #[trigger] es.drop_first()[j]).0 != k by {
            assert(es.drop_first()[j] == es[j + 1]);
        }
        lemma_bump_absent(es.drop_first(), k, v);
    }
}

} // verus!
