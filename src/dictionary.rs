//! The word dictionary: which whole words are worth a symbol of their own,
//! the substitution that rewrites bytes into symbols, and its inverse.
//!
//! Symbols 0 to 255 stand for themselves as bytes; symbol `256 + j` stands
//! for dictionary word `j`.

use vstd::prelude::*;
use crate::error::CodecError;

verus! {

/// An ASCII letter.
pub open spec fn is_letter(b: u8) -> bool {
    (65 <= b && b <= 90) || (97 <= b && b <= 122)
}

/// A byte that can be part of a word: an ASCII letter or an apostrophe.
pub open spec fn is_word_byte(b: u8) -> bool {
    is_letter(b) || b == 39
}

/// The byte strings that a vector of words holds.
pub open spec fn view_words(v: Seq<Vec<u8>>) -> Seq<Seq<u8>> {
    v.map_values(|w: Vec<u8>| w@)
}

// ---------------------------------------------------------------------
// Discovery

/// The finished tokens after `run` ends: `run` is one if it is at least
/// three bytes long.
pub open spec fn close_run(done: Seq<Seq<u8>>, run: Seq<u8>) -> Seq<Seq<u8>> {
    if run.len() >= 3 {
        done.push(run)
    } else {
        done
    }
}

/// Tokenizer state after reading `x`: the finished tokens, and the run of
/// word bytes that `x` ends with.
pub open spec fn scan(x: Seq<u8>) -> (Seq<Seq<u8>>, Seq<u8>)
    decreases x.len(),
{
    if x.len() == 0 {
        (Seq::empty(), Seq::empty())
    } else {
        let (done, run) = scan(x.drop_last());
        if is_word_byte(x.last()) {
            (done, run.push(x.last()))
        } else {
            (close_run(done, run), Seq::empty())
        }
    }
}

/// The tokens of `x`: its maximal runs of word bytes, three bytes or longer,
/// in order.
pub open spec fn tokens(x: Seq<u8>) -> Seq<Seq<u8>> {
    close_run(scan(x).0, scan(x).1)
}

/// How often `w` occurs in `ts`.
pub open spec fn occurrences(ts: Seq<Seq<u8>>, w: Seq<u8>) -> nat
    decreases ts.len(),
{
    if ts.len() == 0 {
        0
    } else {
        occurrences(ts.drop_last(), w) + if ts.last() == w { 1nat } else { 0nat }
    }
}

/// The distinct elements of `ts`, in order of first occurrence.
pub open spec fn distinct_words(ts: Seq<Seq<u8>>) -> Seq<Seq<u8>>
    decreases ts.len(),
{
    if ts.len() == 0 {
        Seq::empty()
    } else {
        let d = distinct_words(ts.drop_last());
        if d.contains(ts.last()) {
            d
        } else {
            d.push(ts.last())
        }
    }
}

/// Bytes saved by a word of length `len` that occurs `f` times, less the
/// cost of its dictionary entry (`len + 4`).
pub open spec fn savings(len: int, f: int) -> int {
    len * f - (len + 4)
}

/// The words of `d` worth an entry, each with its savings, in the order of
/// `d`: more than three occurrences in `ts` and a positive saving.
pub open spec fn candidates(d: Seq<Seq<u8>>, ts: Seq<Seq<u8>>) -> Seq<(Seq<u8>, int)>
    decreases d.len(),
{
    if d.len() == 0 {
        Seq::empty()
    } else {
        let c = candidates(d.drop_last(), ts);
        let w = d.last();
        let f = occurrences(ts, w) as int;
        if f > 3 && savings(w.len() as int, f) > 0 {
            c.push((w, savings(w.len() as int, f)))
        } else {
            c
        }
    }
}

/// The index of the candidate with the largest savings; the earliest one
/// among equals.
pub open spec fn best_index(c: Seq<(Seq<u8>, int)>) -> int
    decreases c.len(),
{
    if c.len() <= 1 {
        0
    } else {
        let b = best_index(c.drop_last());
        if c.last().1 > c[b].1 {
            c.len() - 1
        } else {
            b
        }
    }
}

/// The best `k` candidates, best first.
pub open spec fn select(c: Seq<(Seq<u8>, int)>, k: nat) -> Seq<Seq<u8>>
    decreases k,
{
    if k == 0 || c.len() == 0 {
        Seq::empty()
    } else {
        let b = best_index(c);
        seq![c[b].0] + select(c.remove(b), (k - 1) as nat)
    }
}

/// The dictionary chosen for `x`: none for inputs shorter than
/// `min_input_len`; else the `max_words` profitable tokens with the largest
/// savings, ties going to the token that occurs first.
pub open spec fn dictionary_of(x: Seq<u8>, min_input_len: nat, max_words: nat) -> Seq<Seq<u8>> {
    if x.len() < min_input_len {
        Seq::empty()
    } else {
        let ts = tokens(x);
        select(candidates(distinct_words(ts), ts), max_words)
    }
}

/// Thresholds of dictionary selection.
pub struct DictionaryConfig {
    /// Inputs shorter than this get no dictionary.
    pub min_input_len: usize,
    /// The most words a dictionary holds.
    pub max_words: usize,
}

impl DictionaryConfig {
    /// The thresholds the encoder uses: no dictionary below 1000 bytes, at
    /// most 25 words.
    pub fn standard() -> (c: Self)
        ensures
            c.min_input_len == 1000,
            c.max_words == 25,
    {
        DictionaryConfig { min_input_len: 1000, max_words: 25 }
    }
}

/// The best candidate is one of them.
pub proof fn lemma_best_index_range(c: Seq<(Seq<u8>, int)>)
    requires
        c.len() > 0,
    ensures
        0 <= best_index(c) < c.len(),
    decreases c.len(),
{
    if c.len() > 1 {
        lemma_best_index_range(c.drop_last());
    }
}

/// A word occurs at most as often as there are tokens.
proof fn lemma_occurrences_le(ts: Seq<Seq<u8>>, w: Seq<u8>)
    ensures
        occurrences(ts, w) <= ts.len(),
    decreases ts.len(),
{
    if ts.len() > 0 {
        lemma_occurrences_le(ts.drop_last(), w);
    }
}

/// A word that occurs is among the distinct words.
proof fn lemma_distinct_has(ts: Seq<Seq<u8>>, w: Seq<u8>)
    requires
        occurrences(ts, w) > 0,
    ensures
        distinct_words(ts).contains(w),
    decreases ts.len(),
{
    let d = distinct_words(ts.drop_last());
    if ts.last() == w {
        if !d.contains(w) {
            assert(d.push(w)[d.len() as int] == w);
        }
    } else {
        lemma_distinct_has(ts.drop_last(), w);
        if !d.contains(ts.last()) {
            let i = choose|i: int| 0 <= i < d.len() && d[i] == w;
            assert(d.push(ts.last())[i] == w);
        }
    }
}

/// The distinct words hold no word twice.
proof fn lemma_distinct_unique(ts: Seq<Seq<u8>>)
    ensures
        forall|a: int, b: int| 0 <= a < b < distinct_words(ts).len() ==> distinct_words(ts)[a] != distinct_words(ts)[b],
    decreases ts.len(),
{
    if ts.len() > 0 {
        lemma_distinct_unique(ts.drop_last());
        let d = distinct_words(ts.drop_last());
        if !d.contains(ts.last()) {
            assert forall|a: int, b: int| 0 <= a < b < d.push(ts.last()).len() implies d.push(ts.last())[a] != d.push(ts.last())[b] by {
                if b == d.len() {
                    assert(d[a] != ts.last());
                }
            }
        }
    }
}

/// The tokenizer never holds more tokens and run bytes than it has read.
proof fn lemma_scan_len(x: Seq<u8>)
    ensures
        scan(x).0.len() + scan(x).1.len() <= x.len(),
    decreases x.len(),
{
    if x.len() > 0 {
        lemma_scan_len(x.drop_last());
    }
}

/// `b` is an ASCII letter.
fn letter(b: u8) -> (r: bool)
    ensures
        r == is_letter(b),
{
    (65 <= b && b <= 90) || (97 <= b && b <= 122)
}

/// `b` is an ASCII letter or an apostrophe.
fn word_byte(b: u8) -> (r: bool)
    ensures
        r == is_word_byte(b),
{
    letter(b) || b == 39
}

/// The two byte strings are equal.
fn same_bytes(a: &Vec<u8>, b: &Vec<u8>) -> (r: bool)
    ensures
        r == (a@ == b@),
{
    if a.len() != b.len() {
        return false;
    }
    let mut i: usize = 0;
    while i < a.len()
        invariant
            a@.len() == b@.len(),
            i <= a@.len(),
            forall|k: int| 0 <= k < i ==> a@[k] == b@[k],
        decreases a@.len() - i,
    {
        if a[i] != b[i] {
            return false;
        }
        i = i + 1;
    }
    assert(a@ =~= b@);
    true
}

/// A copy of a byte string.
fn copy_bytes(v: &Vec<u8>) -> (r: Vec<u8>)
    ensures
        r@ == v@,
{
    let r = v.clone();
    assert(r@ =~= v@);
    r
}

/// Adds one token to the distinct words and their counts.
fn add_token(words: &mut Vec<Vec<u8>>, counts: &mut Vec<u64>, t: Vec<u8>, Ghost(done): Ghost<Seq<Seq<u8>>>)
    requires
        view_words(old(words)@) == distinct_words(done),
        old(counts)@.len() == old(words)@.len(),
        forall|j: int| 0 <= j < old(words)@.len() ==> old(counts)@[j] == occurrences(done, #[trigger] old(words)@[j]@),
        done.len() < u64::MAX,
    ensures
        view_words(final(words)@) == distinct_words(done.push(t@)),
        final(counts)@.len() == final(words)@.len(),
        forall|j: int| 0 <= j < final(words)@.len() ==> final(counts)@[j] == occurrences(done.push(t@), #[trigger] final(words)@[j]@),
{
    let ghost next = done.push(t@);
    proof {
        assert(next.drop_last() == done);
        lemma_distinct_unique(done);
    }
    let mut j: usize = 0;
    while j < words.len()
        invariant
            j <= words@.len(),
            view_words(words@) == distinct_words(done),
            words@ == old(words)@,
            counts@ == old(counts)@,
            counts@.len() == words@.len(),
            done.len() < u64::MAX,
            next == done.push(t@),
            forall|k: int| 0 <= k < words@.len() ==> counts@[k] == occurrences(done, #[trigger] words@[k]@),
            forall|a: int, b: int| 0 <= a < b < distinct_words(done).len() ==> distinct_words(done)[a] != distinct_words(done)[b],
            forall|k: int| 0 <= k < j ==> words@[k]@ != t@,
        decreases words@.len() - j,
    {
        if same_bytes(&words[j], &t) {
            let c = counts[j];
            proof {
                lemma_occurrences_le(done, t@);
                assert(view_words(words@)[j as int] == t@);
                assert(distinct_words(done).contains(t@));
                assert(next.drop_last() == done);
                assert(next.last() == t@);
                assert(distinct_words(next) == distinct_words(done));
            }
            counts.set(j, c + 1);
            proof {
                assert forall|k: int| 0 <= k < words@.len() implies counts@[k] == occurrences(next, #[trigger] words@[k]@) by {
                    if k != j {
                        assert(view_words(words@)[k] != view_words(words@)[j as int]);
                    }
                    assert(occurrences(next, words@[k]@) == occurrences(done, words@[k]@) + if t@ == words@[k]@ { 1nat } else { 0nat });
                }
            }
            return;
        }
        j = j + 1;
    }
    proof {
        assert(!distinct_words(done).contains(t@)) by {
            if distinct_words(done).contains(t@) {
                let k = choose|k: int| 0 <= k < distinct_words(done).len() && distinct_words(done)[k] == t@;
                assert(view_words(words@)[k] == words@[k]@);
            }
        }
        if occurrences(done, t@) > 0 {
            lemma_distinct_has(done, t@);
        }
    }
    words.push(t);
    counts.push(1);
    proof {
        assert(view_words(words@) =~= distinct_words(done).push(t@));
        assert forall|k: int| 0 <= k < words@.len() implies counts@[k] == occurrences(next, #[trigger] words@[k]@) by {
            if k < words@.len() - 1 {
                assert(words@[k] == old(words)@[k]);
            }
        }
    }
}

/// The distinct tokens of `x` in order of first occurrence, with their
/// counts.
fn count_tokens(x: &[u8]) -> (r: (Vec<Vec<u8>>, Vec<u64>))
    ensures
        view_words(r.0@) == distinct_words(tokens(x@)),
        r.1@.len() == r.0@.len(),
        forall|j: int| 0 <= j < r.0@.len() ==> r.1@[j] == occurrences(tokens(x@), #[trigger] r.0@[j]@),
{
    let mut words: Vec<Vec<u8>> = Vec::new();
    let mut counts: Vec<u64> = Vec::new();
    let mut run: Vec<u8> = Vec::new();
    let mut i: usize = 0;
    let n = x.len();
    proof {
        assert(x@.take(0) =~= Seq::<u8>::empty());
        assert(view_words(words@) =~= Seq::<Seq<u8>>::empty());
    }
    while i < n
        invariant
            n == x@.len(),
            i <= n,
            view_words(words@) == distinct_words(scan(x@.take(i as int)).0),
            counts@.len() == words@.len(),
            forall|j: int| 0 <= j < words@.len() ==> counts@[j] == occurrences(scan(x@.take(i as int)).0, #[trigger] words@[j]@),
            run@ == scan(x@.take(i as int)).1,
        decreases n - i,
    {
        let b = x[i];
        let ghost prev = x@.take(i as int);
        proof {
            assert(x@.take(i + 1).drop_last() == prev);
            lemma_scan_len(prev);
        }
        if word_byte(b) {
            run.push(b);
        } else {
            if run.len() >= 3 {
                let token = run;
                add_token(&mut words, &mut counts, token, Ghost(scan(prev).0));
            }
            run = Vec::new();
            proof {
                assert(run@ =~= Seq::<u8>::empty());
            }
        }
        i = i + 1;
    }
    proof {
        assert(x@.take(n as int) == x@);
        lemma_scan_len(x@);
    }
    if run.len() >= 3 {
        add_token(&mut words, &mut counts, run, Ghost(scan(x@).0));
    }
    (words, counts)
}

/// The candidate list as the spec functions see it.
pub open spec fn view_candidates(c: Seq<(Vec<u8>, u128)>) -> Seq<(Seq<u8>, int)> {
    c.map_values(|e: (Vec<u8>, u128)| (e.0@, e.1 as int))
}

/// The index of the best candidate, as `best_index` picks it.
fn best_candidate(c: &Vec<(Vec<u8>, u128)>) -> (b: usize)
    requires
        c@.len() > 0,
    ensures
        b == best_index(view_candidates(c@)),
        b < c@.len(),
{
    let ghost cv = view_candidates(c@);
    let mut b: usize = 0;
    let mut j: usize = 1;
    proof {
        assert(cv.take(1).len() == 1);
    }
    while j < c.len()
        invariant
            cv == view_candidates(c@),
            1 <= j <= c@.len(),
            b < j,
            b == best_index(cv.take(j as int)),
        decreases c@.len() - j,
    {
        proof {
            assert(cv.take(j + 1).drop_last() == cv.take(j as int));
            lemma_best_index_range(cv.take(j as int));
        }
        if c[j].1 > c[b].1 {
            b = j;
        }
        j = j + 1;
    }
    proof {
        assert(cv.take(c@.len() as int) == cv);
    }
    b
}

/// Chooses the dictionary for `x`: the profitable tokens with the largest
/// savings, at most `config.max_words` of them, and none for inputs shorter
/// than `config.min_input_len`.
pub fn discover_profitable_word_enchantments(x: &[u8], config: &DictionaryConfig) -> (r: Vec<Vec<u8>>)
    ensures
        view_words(r@) == dictionary_of(x@, config.min_input_len as nat, config.max_words as nat),
{
    if x.len() < config.min_input_len {
        let r: Vec<Vec<u8>> = Vec::new();
        proof {
            assert(view_words(r@) =~= Seq::<Seq<u8>>::empty());
        }
        return r;
    }
    let ghost ts = tokens(x@);
    let (words, counts) = count_tokens(x);
    let ghost d = distinct_words(ts);
    let mut cands: Vec<(Vec<u8>, u128)> = Vec::new();
    let mut j: usize = 0;
    proof {
        assert(d.take(0) =~= Seq::<Seq<u8>>::empty());
        assert(view_candidates(cands@) =~= Seq::<(Seq<u8>, int)>::empty());
    }
    while j < words.len()
        invariant
            view_words(words@) == d,
            counts@.len() == words@.len(),
            forall|k: int| 0 <= k < words@.len() ==> counts@[k] == occurrences(ts, #[trigger] words@[k]@),
            j <= words@.len(),
            view_candidates(cands@) == candidates(d.take(j as int), ts),
        decreases words@.len() - j,
    {
        let f = counts[j];
        let len = words[j].len() as u128;
        proof {
            assert(d.take(j + 1).drop_last() == d.take(j as int));
            assert(d.take(j + 1).last() == words@[j as int]@);
            assert(len * (f as u128) <= 0xffff_ffff_ffff_ffff * 0xffff_ffff_ffff_ffff) by (nonlinear_arith)
                requires len <= 0xffff_ffff_ffff_ffff, f <= 0xffff_ffff_ffff_ffff;
        }
        let product = len * (f as u128);
        if f > 3 && product > len + 4 {
            let w = copy_bytes(&words[j]);
            cands.push((w, product - (len + 4)));
            proof {
                assert(view_candidates(cands@) =~= candidates(d.take(j as int), ts).push((words@[j as int]@, savings(len as int, f as int))));
            }
        }
        j = j + 1;
    }
    proof {
        assert(d.take(words@.len() as int) == d);
    }
    let ghost c0 = view_candidates(cands@);
    let mut out: Vec<Vec<u8>> = Vec::new();
    let mut picked: usize = 0;
    proof {
        assert(view_words(out@) =~= Seq::<Seq<u8>>::empty());
        assert(view_words(out@) + select(c0, config.max_words as nat) =~= select(c0, config.max_words as nat));
    }
    while picked < config.max_words && cands.len() > 0
        invariant
            picked <= config.max_words,
            view_words(out@) + select(view_candidates(cands@), (config.max_words - picked) as nat)
                == select(c0, config.max_words as nat),
        decreases config.max_words - picked,
    {
        let b = best_candidate(&cands);
        let ghost cv = view_candidates(cands@);
        let ghost k = (config.max_words - picked) as nat;
        let ghost prev_out = view_words(out@);
        let (w, _) = cands.remove(b);
        proof {
            assert(view_candidates(cands@) =~= cv.remove(b as int));
            assert(select(cv, k) == seq![cv[b as int].0] + select(cv.remove(b as int), (k - 1) as nat));
        }
        out.push(w);
        picked = picked + 1;
        proof {
            assert(view_words(out@) =~= prev_out.push(cv[b as int].0));
            assert(view_words(out@) + select(cv.remove(b as int), (k - 1) as nat)
                =~= prev_out + (seq![cv[b as int].0] + select(cv.remove(b as int), (k - 1) as nat)));
        }
    }
    out
}

// ---------------------------------------------------------------------
// Substitution and expansion

/// Word `w` stands in `x` at `i` as a whole word: the bytes match, and no
/// letter stands right before or right after.
pub open spec fn matches_at(x: Seq<u8>, w: Seq<u8>, i: int) -> bool {
    &&& w.len() > 0
    &&& 0 <= i
    &&& i + w.len() <= x.len()
    &&& x.subrange(i, i + w.len()) == w
    &&& (i == 0 || !is_letter(x[i - 1]))
    &&& (i + w.len() == x.len() || !is_letter(x[i + w.len()]))
}

/// The first word from index `j` on that stands in `x` at `i`.
pub open spec fn first_match(x: Seq<u8>, words: Seq<Seq<u8>>, i: int, j: int) -> Option<int>
    decreases words.len() - j,
{
    if j < 0 || j >= words.len() {
        None
    } else if matches_at(x, words[j], i) {
        Some(j)
    } else {
        first_match(x, words, i, j + 1)
    }
}

/// The dictionary word that replaces the bytes at `i`, if any: only where a
/// word byte stands.
pub open spec fn word_at(x: Seq<u8>, words: Seq<Seq<u8>>, i: int) -> Option<int> {
    if is_word_byte(x[i]) {
        first_match(x, words, i, 0)
    } else {
        None
    }
}

/// The symbols for `x` from index `i` on, scanning left to right: a word's
/// symbol where a dictionary word stands, else the byte itself.
pub open spec fn substitute_from(x: Seq<u8>, words: Seq<Seq<u8>>, i: int) -> Seq<u32>
    decreases x.len() - i,
{
    if i < 0 || i >= x.len() {
        Seq::empty()
    } else {
        match word_at(x, words, i) {
            Some(j) => if 0 <= j < words.len() && 0 < words[j].len() <= x.len() - i {
                seq![(256 + j) as u32] + substitute_from(x, words, i + words[j].len())
            } else {
                Seq::empty()
            },
            None => seq![x[i] as u32] + substitute_from(x, words, i + 1),
        }
    }
}

/// The symbols for `x` under dictionary `words`.
pub open spec fn substitute(x: Seq<u8>, words: Seq<Seq<u8>>) -> Seq<u32> {
    substitute_from(x, words, 0)
}

/// The bytes that one symbol stands for; none for a reference past the end
/// of the dictionary.
pub open spec fn piece(sym: u32, words: Seq<Seq<u8>>) -> Option<Seq<u8>> {
    if sym < 256 {
        Some(seq![sym as u8])
    } else if sym - 256 < words.len() {
        Some(words[sym - 256])
    } else {
        None
    }
}

/// The bytes that a symbol sequence stands for; none if any symbol refers
/// past the end of the dictionary.
pub open spec fn expand(syms: Seq<u32>, words: Seq<Seq<u8>>) -> Option<Seq<u8>>
    decreases syms.len(),
{
    if syms.len() == 0 {
        Some(Seq::empty())
    } else {
        match piece(syms[0], words) {
            Some(p) => match expand(syms.drop_first(), words) {
                Some(r) => Some(p + r),
                None => None,
            },
            None => None,
        }
    }
}

/// `p` in front of an optional byte string.
pub open spec fn prepend(p: Seq<u8>, o: Option<Seq<u8>>) -> Option<Seq<u8>> {
    match o {
        Some(r) => Some(p + r),
        None => None,
    }
}

/// A match found from index `j` on is a real match at or after `j`.
pub proof fn lemma_first_match(x: Seq<u8>, words: Seq<Seq<u8>>, i: int, j: int)
    requires
        0 <= j,
    ensures
        match first_match(x, words, i, j) {
            Some(k) => j <= k < words.len() && matches_at(x, words[k], i),
            None => forall|k: int| j <= k < words.len() ==> !matches_at(x, #[trigger] words[k], i),
        },
    decreases words.len() - j,
{
    if j < words.len() && !matches_at(x, words[j], i) {
        lemma_first_match(x, words, i, j + 1);
    }
}

/// Word `w` stands in `x` at `i`.
fn word_matches_at(x: &[u8], w: &Vec<u8>, i: usize) -> (r: bool)
    requires
        i < x@.len(),
    ensures
        r == matches_at(x@, w@, i as int),
{
    let n = x.len();
    let m = w.len();
    if m == 0 || m > n - i {
        return false;
    }
    let mut k: usize = 0;
    while k < m
        invariant
            n == x@.len(),
            m == w@.len(),
            i + m <= n,
            k <= m,
            forall|q: int| 0 <= q < k ==> x@[i + q] == w@[q],
        decreases m - k,
    {
        if x[i + k] != w[k] {
            proof {
                assert(x@.subrange(i as int, i + m)[k as int] != w@[k as int]);
            }
            return false;
        }
        k = k + 1;
    }
    proof {
        assert(x@.subrange(i as int, i + m) =~= w@);
    }
    let start_ok = i == 0 || !letter(x[i - 1]);
    let end_ok = i + m == n || !letter(x[i + m]);
    start_ok && end_ok
}

/// The first dictionary word that stands in `x` at `i`.
fn find_word(x: &[u8], words: &Vec<Vec<u8>>, i: usize) -> (r: Option<usize>)
    requires
        i < x@.len(),
    ensures
        match first_match(x@, view_words(words@), i as int, 0) {
            Some(k) => r == Some(k as usize),
            None => r is None,
        },
{
    let ghost wv = view_words(words@);
    let mut j: usize = 0;
    while j < words.len()
        invariant
            wv == view_words(words@),
            i < x@.len(),
            j <= words@.len(),
            first_match(x@, wv, i as int, 0) == first_match(x@, wv, i as int, j as int),
        decreases words@.len() - j,
    {
        if word_matches_at(x, &words[j], i) {
            return Some(j);
        }
        j = j + 1;
    }
    None
}

/// Rewrites `x` into symbols: where a dictionary word stands as a whole
/// word, its symbol `256 + index`; elsewhere each byte as itself.
pub fn transform_manuscript_to_symbols(x: &[u8], words: &Vec<Vec<u8>>) -> (r: Vec<u32>)
    requires
        words@.len() + 256 <= u32::MAX,
    ensures
        r@ == substitute(x@, view_words(words@)),
{
    let ghost wv = view_words(words@);
    let ghost xv = x@;
    let n = x.len();
    let mut out: Vec<u32> = Vec::new();
    let mut i: usize = 0;
    proof {
        assert(out@ + substitute_from(xv, wv, 0) =~= substitute_from(xv, wv, 0));
    }
    while i < n
        invariant
            n == xv.len(),
            xv == x@,
            wv == view_words(words@),
            words@.len() + 256 <= u32::MAX,
            i <= n,
            out@ + substitute_from(xv, wv, i as int) == substitute_from(xv, wv, 0),
        decreases n - i,
    {
        let b = x[i];
        let found = if word_byte(b) { find_word(x, words, i) } else { None };
        proof {
            lemma_first_match(xv, wv, i as int, 0);
        }
        let ghost prev = out@;
        let ghost i0 = i as int;
        match found {
            Some(j) => {
                let len = words[j].len();
                proof {
                    assert(wv[j as int] == words@[j as int]@);
                }
                out.push(256 + j as u32);
                i = i + len;
            },
            None => {
                out.push(b as u32);
                i = i + 1;
            },
        }
        proof {
            assert(substitute_from(xv, wv, i0) == seq![out@.last()] + substitute_from(xv, wv, i as int));
            assert(out@ + substitute_from(xv, wv, i as int) =~= prev + substitute_from(xv, wv, i0));
        }
    }
    out
}

/// Appends the bytes of `w` to `out`.
fn append_bytes(out: &mut Vec<u8>, w: &Vec<u8>)
    ensures
        final(out)@ == old(out)@ + w@,
{
    let mut k: usize = 0;
    while k < w.len()
        invariant
            k <= w@.len(),
            out@ == old(out)@ + w@.take(k as int),
        decreases w@.len() - k,
    {
        out.push(w[k]);
        k = k + 1;
        proof {
            assert(out@ =~= old(out)@ + w@.take(k as int));
        }
    }
    proof {
        assert(w@.take(w@.len() as int) == w@);
    }
}

/// Turns symbols back into bytes: a symbol below 256 is that byte, symbol
/// `256 + j` is dictionary word `j`. A reference past the end of the
/// dictionary is an error.
pub fn reconstruct_original_manuscript(syms: &[u32], words: &Vec<Vec<u8>>) -> (r: Result<Vec<u8>, CodecError>)
    ensures
        match r {
            Ok(v) => expand(syms@, view_words(words@)) == Some(v@),
            Err(e) => expand(syms@, view_words(words@)) is None && e == CodecError::CorruptReferenceError,
        },
{
    let ghost wv = view_words(words@);
    let mut out: Vec<u8> = Vec::new();
    let mut i: usize = 0;
    let n = syms.len();
    proof {
        assert(syms@.subrange(0, n as int) == syms@);
        assert(prepend(out@, expand(syms@, wv)) == expand(syms@, wv)) by {
            match expand(syms@, wv) {
                Some(e) => assert(out@ + e =~= e),
                None => {},
            }
        }
    }
    while i < n
        invariant
            n == syms@.len(),
            i <= n,
            wv == view_words(words@),
            expand(syms@, wv) == prepend(out@, expand(syms@.subrange(i as int, n as int), wv)),
        decreases n - i,
    {
        let s = syms[i];
        let ghost rest = syms@.subrange(i as int, n as int);
        let ghost prev = out@;
        proof {
            assert(rest[0] == s);
            assert(rest.drop_first() == syms@.subrange(i + 1, n as int));
        }
        if s < 256 {
            out.push(s as u8);
            proof {
                let tail = expand(syms@.subrange(i + 1, n as int), wv);
                match tail {
                    Some(t) => assert(prev + (seq![s as u8] + t) =~= out@ + t),
                    None => {},
                }
            }
        } else if ((s - 256) as usize) < words.len() {
            let k = (s - 256) as usize;
            append_bytes(&mut out, &words[k]);
            proof {
                assert(wv[k as int] == words@[k as int]@);
                let tail = expand(syms@.subrange(i + 1, n as int), wv);
                match tail {
                    Some(t) => assert(prev + (words@[k as int]@ + t) =~= out@ + t),
                    None => {},
                }
            }
        } else {
            return Err(CodecError::CorruptReferenceError);
        }
        i = i + 1;
    }
    proof {
        assert(syms@.subrange(n as int, n as int) =~= Seq::<u32>::empty());
        assert(out@ + Seq::<u8>::empty() =~= out@);
    }
    Ok(out)
}

/// Expanding the substitution of `x` from `i` on gives back `x` from `i` on.
pub proof fn lemma_expand_substitute_from(x: Seq<u8>, words: Seq<Seq<u8>>, i: int)
    requires
        words.len() + 256 <= u32::MAX,
        0 <= i <= x.len(),
    ensures
        expand(substitute_from(x, words, i), words) == Some(x.subrange(i, x.len() as int)),
    decreases x.len() - i,
{
    let s = substitute_from(x, words, i);
    if i == x.len() {
        assert(x.subrange(i, x.len() as int) =~= Seq::<u8>::empty());
    } else {
        lemma_first_match(x, words, i, 0);
        match word_at(x, words, i) {
            Some(j) => {
                let len = words[j].len() as int;
                lemma_expand_substitute_from(x, words, i + len);
                assert(s[0] == (256 + j) as u32);
                assert(s.drop_first() == substitute_from(x, words, i + len));
                assert(x.subrange(i, i + len) + x.subrange(i + len, x.len() as int) =~= x.subrange(i, x.len() as int));
            },
            None => {
                lemma_expand_substitute_from(x, words, i + 1);
                assert(s.drop_first() == substitute_from(x, words, i + 1));
                assert(seq![x[i]] + x.subrange(i + 1, x.len() as int) =~= x.subrange(i, x.len() as int));
            },
        }
    }
}

/// Every token of `x` is at most as long as `x`.
proof fn lemma_scan_bounded(x: Seq<u8>)
    ensures
        forall|i: int| 0 <= i < scan(x).0.len() ==> (#[trigger] scan(x).0[i]).len() <= x.len(),
        scan(x).1.len() <= x.len(),
    decreases x.len(),
{
    if x.len() > 0 {
        lemma_scan_bounded(x.drop_last());
    }
}

/// Every word of the dictionary chosen for `x` is at most as long as `x`.
pub proof fn lemma_dictionary_word_len(x: Seq<u8>, min_input_len: nat, max_words: nat)
    ensures
        forall|j: int| 0 <= j < dictionary_of(x, min_input_len, max_words).len()
            ==> (#[trigger] dictionary_of(x, min_input_len, max_words)[j]).len() <= x.len(),
{
    if x.len() >= min_input_len {
        let ts = tokens(x);
        lemma_scan_bounded(x);
        assert forall|i: int| 0 <= i < ts.len() implies (#[trigger] ts[i]).len() <= x.len() by {
            if i < scan(x).0.len() {
                assert(ts[i] == scan(x).0[i]);
            }
        }
        lemma_distinct_bounded(ts, x.len());
        lemma_candidates_bounded(distinct_words(ts), ts, x.len());
        lemma_select_bounded(candidates(distinct_words(ts), ts), max_words, x.len());
    }
}

/// Distinct words keep any length bound that the tokens obey.
proof fn lemma_distinct_bounded(ts: Seq<Seq<u8>>, n: nat)
    requires
        forall|i: int| 0 <= i < ts.len() ==> (#[trigger] ts[i]).len() <= n,
    ensures
        forall|i: int| 0 <= i < distinct_words(ts).len() ==> (#[trigger] distinct_words(ts)[i]).len() <= n,
    decreases ts.len(),
{
    if ts.len() > 0 {
        let init = ts.drop_last();
        assert forall|i: int| 0 <= i < init.len() implies (#[trigger] init[i]).len() <= n by {
            assert(init[i] == ts[i]);
        }
        lemma_distinct_bounded(init, n);
        assert(ts.last() == ts[ts.len() - 1]);
        let d = distinct_words(init);
        assert forall|i: int| 0 <= i < distinct_words(ts).len() implies (#[trigger] distinct_words(ts)[i]).len() <= n by {
            if i < d.len() {
                assert(distinct_words(ts)[i] == d[i]);
            }
        }
    }
}

/// Candidates keep any length bound that the distinct words obey.
proof fn lemma_candidates_bounded(d: Seq<Seq<u8>>, ts: Seq<Seq<u8>>, n: nat)
    requires
        forall|i: int| 0 <= i < d.len() ==> (#[trigger] d[i]).len() <= n,
    ensures
        forall|i: int| 0 <= i < candidates(d, ts).len() ==> (#[trigger] candidates(d, ts)[i]).0.len() <= n,
    decreases d.len(),
{
    if d.len() > 0 {
        let init = d.drop_last();
        assert forall|i: int| 0 <= i < init.len() implies (#[trigger] init[i]).len() <= n by {
            assert(init[i] == d[i]);
        }
        lemma_candidates_bounded(init, ts, n);
        assert(d.last() == d[d.len() - 1]);
        let c = candidates(init, ts);
        assert forall|i: int| 0 <= i < candidates(d, ts).len() implies (#[trigger] candidates(d, ts)[i]).0.len() <= n by {
            if i < c.len() {
                assert(candidates(d, ts)[i] == c[i]);
            }
        }
    }
}

/// Selection keeps any length bound that the candidates obey.
proof fn lemma_select_bounded(c: Seq<(Seq<u8>, int)>, k: nat, n: nat)
    requires
        forall|i: int| 0 <= i < c.len() ==> (#[trigger] c[i]).0.len() <= n,
    ensures
        forall|i: int| 0 <= i < select(c, k).len() ==> (#[trigger] select(c, k)[i]).len() <= n,
    decreases k,
{
    if k > 0 && c.len() > 0 {
        let b = best_index(c);
        lemma_best_index_range(c);
        let rest = c.remove(b);
        assert forall|i: int| 0 <= i < rest.len() implies (#[trigger] rest[i]).0.len() <= n by {
            if i < b {
                assert(rest[i] == c[i]);
            } else {
                assert(rest[i] == c[i + 1]);
            }
        }
        lemma_select_bounded(rest, (k - 1) as nat, n);
        let s = select(c, k);
        assert forall|i: int| 0 <= i < s.len() implies (#[trigger] s[i]).len() <= n by {
            if i > 0 {
                assert(s[i] == select(rest, (k - 1) as nat)[i - 1]);
            }
        }
    }
}

} // verus!
