use vstd::prelude::*;

use crate::table::{
    bump_entries, count_tokens, entries_map, lemma_count_tokens_wf, lemma_merge_commutative,
    merge_entries, merge_maps, plain_char, sat_add, FreqTable,
};

verus! {

/// What `str::to_lowercase` returns for the given characters: Unicode case
/// normalization, a function of the characters alone.
pub uninterp spec fn lower_of(s: Seq<char>) -> Seq<char>;

/// Whether `char::is_alphanumeric` holds of the character: membership in
/// the Unicode alphabetic and numeric classes, a function of the character
/// alone.
pub uninterp spec fn is_alphanum(c: char) -> bool;

/// Relies on str::to_lowercase: the lowercased text depends on the
/// characters alone, and its characters are handed back one by one.
#[verifier::external_body]
fn lowercase_chars(s: &str) -> (r: Vec<char>)
    ensures
        r@ == lower_of(s@),
{
    s.to_lowercase().chars().collect()
}

/// Relies on char::is_alphanumeric: a function of the character alone, and
/// no alphanumeric character is a quote, a backslash or a control
/// character (the Unicode alphabetic and numeric classes hold none).
#[verifier::external_body]
fn char_is_alphanumeric(c: char) -> (r: bool)
    ensures
        r == is_alphanum(c),
        r ==> plain_char(c),
{
    c.is_alphanumeric()
}

/// Relies on String::from_iter over chars: collects exactly the given
/// characters into a string.
#[verifier::external_body]
fn string_from_chars(v: &Vec<char>) -> (r: String)
    ensures
        r@ == v@,
{
    v.iter().collect()
}

/// The alphanumeric run ending just before position `i`: the token still
/// being read after `i` characters.
pub open spec fn cur_run(s: Seq<char>, i: int) -> Seq<char>
    decreases i,
{
    if i <= 0 || i > s.len() {
        Seq::empty()
    } else if is_alphanum(s[i - 1]) {
        cur_run(s, i - 1).push(s[i - 1])
    } else {
        Seq::empty()
    }
}

/// The tokens completed within the first `i` characters: a token ends
/// where a non-alphanumeric character follows a nonempty run.
pub open spec fn toks_upto(s: Seq<char>, i: int) -> Seq<Seq<char>>
    decreases i,
{
    if i <= 0 || i > s.len() {
        Seq::empty()
    } else if !is_alphanum(s[i - 1]) && cur_run(s, i - 1).len() > 0 {
        toks_upto(s, i - 1).push(cur_run(s, i - 1))
    } else {
        toks_upto(s, i - 1)
    }
}

/// The tokens of a text: its maximal alphanumeric runs, in order, the
/// empty runs between adjacent separators discarded.
pub open spec fn tokens_of(s: Seq<char>) -> Seq<Seq<char>> {
    if cur_run(s, s.len() as int).len() > 0 {
        toks_upto(s, s.len() as int).push(cur_run(s, s.len() as int))
    } else {
        toks_upto(s, s.len() as int)
    }
}

/// The frequency table of a text, as the map step computes it: lowercase
/// the text, split it into tokens, count each distinct token.
pub open spec fn text_entries(s: Seq<char>) -> Seq<(Seq<char>, u32)> {
    count_tokens(tokens_of(lower_of(s)))
}

/// Count the occurrences of each distinct token of `s`, case-normalized:
/// the table holds the tokens in order of first appearance.
pub fn word_count(s: &str) -> (t: FreqTable)
    ensures
        t.wf(),
        t@ == text_entries(s@),
{
    let chars = lowercase_chars(s);
    let ghost l = lower_of(s@);
    let n = chars.len();
    let mut t = FreqTable::new();
    let mut cur: Vec<char> = Vec::new();
    let mut i: usize = 0;
    proof {
        assert(count_tokens(toks_upto(l, 0)) =~~= Seq::<(Seq<char>, u32)>::empty());
    }
    while i < n
        invariant
            chars@ == l,
            n == l.len(),
            i <= n,
            t.wf(),
            t@ == count_tokens(toks_upto(l, i as int)),
            cur@ == cur_run(l, i as int),
            forall|j: int| 0 <= j < cur@.len() ==> plain_char(#[trigger] cur@[j]),
        decreases n - i,
    {
        let c = chars[i];
        if char_is_alphanumeric(c) {
            cur.push(c);
            proof {
                assert(cur@ =~= cur_run(l, i + 1));
            }
        } else {
            if cur.len() > 0 {
                let k = string_from_chars(&cur);
                t.bump(k, 1);
                cur = Vec::new();
                proof {
                    let ts = toks_upto(l, i + 1);
                    assert(ts == toks_upto(l, i as int).push(cur_run(l, i as int)));
                    assert(ts.drop_last() =~~= toks_upto(l, i as int));
                    assert(ts.last() == cur_run(l, i as int));
                }
            }
            proof {
                assert(cur_run(l, i + 1) =~= Seq::<char>::empty());
            }
        }
        i = i + 1;
    }
    if cur.len() > 0 {
        let k = string_from_chars(&cur);
        t.bump(k, 1);
        proof {
            let ts = tokens_of(l);
            assert(ts == toks_upto(l, l.len() as int).push(cur_run(l, l.len() as int)));
            assert(ts.drop_last() =~~= toks_upto(l, l.len() as int));
            assert(ts.last() == cur_run(l, l.len() as int));
        }
    }
    t
}

/// The map step is deterministic: one text has one table. Two applications
/// of the map step to the same text give the same entries, byte for byte
/// once encoded, because the table is a function of the text alone.
pub proof fn lemma_map_deterministic(
    s: Seq<char>,
    t1: Seq<(Seq<char>, u32)>,
    t2: Seq<(Seq<char>, u32)>,
)
    requires
        t1 == text_entries(s),
        t2 == text_entries(s),
    ensures
        t1 == t2,
{
}

/// The reduce step commutes over map results: merging the tables of two
/// texts gives the same key/value mapping in either order.
pub proof fn lemma_map_reduce_commutative(a: Seq<char>, b: Seq<char>)
    ensures
        entries_map(merge_entries(text_entries(a), text_entries(b))) == entries_map(
            merge_entries(text_entries(b), text_entries(a)),
        ),
{
    lemma_count_tokens_wf(tokens_of(lower_of(a)));
    lemma_count_tokens_wf(tokens_of(lower_of(b)));
    lemma_merge_commutative(text_entries(a), text_entries(b));
}

/// Bumping distributes over a merge at the mapping level.
proof fn lemma_bump_merge_maps(m1: Map<Seq<char>, u32>, m2: Map<Seq<char>, u32>, k: Seq<char>)
    ensures
        crate::table::bump_map(merge_maps(m1, m2), k, 1) =~= merge_maps(
            m1,
            crate::table::bump_map(m2, k, 1),
        ),
{
    assert forall|a: u32, b: u32| sat_add(sat_add(a, b), 1) == sat_add(a, sat_add(b, 1)) by {}
}

/// Counting the tokens of two shards one after the other is counting each
/// shard alone and merging the two tables.
pub proof fn lemma_count_append(t1: Seq<Seq<char>>, t2: Seq<Seq<char>>)
    ensures
        entries_map(count_tokens(t1 + t2)) == merge_maps(
            entries_map(count_tokens(t1)),
            entries_map(count_tokens(t2)),
        ),
    decreases t2.len(),
{
    if t2.len() == 0 {
        assert(t1 + t2 =~~= t1);
        assert(entries_map(count_tokens(t2)) == Map::<Seq<char>, u32>::empty());
        assert(merge_maps(
            entries_map(count_tokens(t1)),
            Map::<Seq<char>, u32>::empty(),
        ) =~= entries_map(count_tokens(t1)));
    } else {
        let t2p = t2.drop_last();
        let tok = t2.last();
        lemma_count_append(t1, t2p);
        assert(t1 + t2 =~~= (t1 + t2p).push(tok));
        assert(((t1 + t2p).push(tok)).drop_last() =~~= t1 + t2p);
        assert(count_tokens((t1 + t2p).push(tok)) == bump_entries(
            count_tokens(t1 + t2p),
            tok,
            1,
        ));
        crate::table::lemma_bump_entries_map(count_tokens(t1 + t2p), tok, 1);
        crate::table::lemma_bump_entries_map(count_tokens(t2p), tok, 1);
        lemma_bump_merge_maps(
            entries_map(count_tokens(t1)),
            entries_map(count_tokens(t2p)),
            tok,
        );
        assert(count_tokens(t2) == bump_entries(count_tokens(t2p), tok, 1));
    }
}

/// Inside a prefix, runs and completed tokens ignore what follows.
proof fn lemma_prefix_runs(a: Seq<char>, b: Seq<char>, i: int)
    requires
        0 <= i <= a.len(),
    ensures
        cur_run(a + b, i) == cur_run(a, i),
        toks_upto(a + b, i) == toks_upto(a, i),
    decreases i,
{
    if i > 0 {
        lemma_prefix_runs(a, b, i - 1);
        assert((a + b)[i - 1] == a[i - 1]);
    }
}

/// Past a settled boundary, runs and completed tokens track the second
/// shard alone.
proof fn lemma_shift_runs(a: Seq<char>, b: Seq<char>, t0: Seq<Seq<char>>, i0: int, i: int)
    requires
        0 <= i0 <= i <= b.len(),
        cur_run(a + b, a.len() + i0) == cur_run(b, i0),
        toks_upto(a + b, a.len() + i0) == t0 + toks_upto(b, i0),
    ensures
        cur_run(a + b, a.len() + i) == cur_run(b, i),
        toks_upto(a + b, a.len() + i) == t0 + toks_upto(b, i),
    decreases i - i0,
{
    if i > i0 {
        lemma_shift_runs(a, b, t0, i0, i - 1);
        assert((a + b)[a.len() + i - 1] == b[i - 1]);
        if !is_alphanum(b[i - 1]) && cur_run(b, i - 1).len() > 0 {
            assert(toks_upto(a + b, a.len() + i) =~~= t0 + toks_upto(b, i));
        }
    }
}

/// Splitting a text at a token boundary splits its tokens: no token
/// crosses a split where one side ends, or the other begins, with a
/// non-alphanumeric character.
pub proof fn lemma_tokens_split(a: Seq<char>, b: Seq<char>)
    ensures
        (a.len() == 0 || b.len() == 0 || !is_alphanum(a.last()) || !is_alphanum(b.first()))
            ==> tokens_of(a + b) == tokens_of(a) + tokens_of(b),
{
    let c = a + b;
    if b.len() == 0 {
        assert(c =~~= a);
        assert(tokens_of(a) + tokens_of(b) =~~= tokens_of(a));
    } else if a.len() == 0 || !is_alphanum(a.last()) {
        lemma_prefix_runs(a, b, a.len() as int);
        assert(cur_run(a, a.len() as int) =~= Seq::<char>::empty());
        assert(tokens_of(a) == toks_upto(a, a.len() as int));
        assert(cur_run(c, a.len() as int) == cur_run(b, 0));
        assert(toks_upto(c, a.len() as int) =~~= tokens_of(a) + toks_upto(b, 0));
        lemma_shift_runs(a, b, tokens_of(a), 0, b.len() as int);
        assert(tokens_of(c) =~~= tokens_of(a) + tokens_of(b));
    } else if !is_alphanum(b.first()) {
        lemma_prefix_runs(a, b, a.len() as int);
        assert(c[a.len() as int] == b[0]);
        assert(cur_run(c, a.len() as int + 1) =~= cur_run(b, 1));
        assert(cur_run(b, 1) =~= Seq::<char>::empty());
        assert(cur_run(b, 0) == Seq::<char>::empty());
        assert(toks_upto(b, 0) =~~= Seq::<Seq<char>>::empty());
        assert(toks_upto(b, 1) == toks_upto(b, 0));
        if cur_run(a, a.len() as int).len() > 0 {
            assert(toks_upto(c, a.len() as int + 1) == toks_upto(c, a.len() as int).push(
                cur_run(c, a.len() as int),
            ));
            assert(tokens_of(a) == toks_upto(a, a.len() as int).push(cur_run(a, a.len() as int)));
            assert(toks_upto(c, a.len() as int + 1) =~~= tokens_of(a) + toks_upto(b, 1));
        } else {
            assert(toks_upto(c, a.len() as int + 1) =~~= tokens_of(a) + toks_upto(b, 1));
        }
        lemma_shift_runs(a, b, tokens_of(a), 1, b.len() as int);
        assert(tokens_of(c) =~~= tokens_of(a) + tokens_of(b));
    }
}

/// Shard independence: when a case-normalized text splits at a token
/// boundary, mapping the shards and merging the two tables gives the
/// table of the whole text.
pub proof fn lemma_shard_independence(a: Seq<char>, b: Seq<char>)
    ensures
        (a.len() == 0 || b.len() == 0 || !is_alphanum(a.last()) || !is_alphanum(b.first()))
            ==> entries_map(count_tokens(tokens_of(a + b))) == merge_maps(
            entries_map(count_tokens(tokens_of(a))),
            entries_map(count_tokens(tokens_of(b))),
        ),
{
    lemma_tokens_split(a, b);
    if a.len() == 0 || b.len() == 0 || !is_alphanum(a.last()) || !is_alphanum(b.first()) {
        lemma_count_append(tokens_of(a), tokens_of(b));
    }
}

} // verus!
