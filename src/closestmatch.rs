//! An index of a vocabulary by n-grams, and the search for the entry that
//! best matches a query.

use vstd::prelude::*;
use std::cmp::Ordering;
use crate::ngram::{
    chars_of, evaluate, lemma_score_bounded, lower_of, ngrams, score_den, score_num,
    sizes_positive, split_word, NgramSet, Score,
};
use vstd::set_lib::{lemma_len_intersect, lemma_subset_equality};
use rayon::prelude::{IndexedParallelIterator, IntoParallelRefIterator, ParallelIterator};

verus! {

/// Compares the fractions `a / b` and `c / d`, whose denominators are
/// positive, without multiplying: by their integer parts, then by the
/// reciprocals of their remainders.
fn cmp_fraction(a: u128, b: u128, c: u128, d: u128) -> (r: Ordering)
    requires
        b > 0,
        d > 0,
    ensures
        (r == Ordering::Less) <==> a * d < c * b,
        (r == Ordering::Equal) <==> a * d == c * b,
        (r == Ordering::Greater) <==> a * d > c * b,
    decreases b + d,
{
    let q1 = a / b;
    let r1 = a % b;
    let q2 = c / d;
    let r2 = c % d;
    let ghost (ai, bi, ci, di, q1i, r1i, q2i, r2i) = (
        a as int,
        b as int,
        c as int,
        d as int,
        q1 as int,
        r1 as int,
        q2 as int,
        r2 as int,
    );
    assert(ai == q1i * bi + r1i && 0 <= r1i < bi) by (nonlinear_arith)
        requires
            q1i == ai / bi,
            r1i == ai % bi,
            bi > 0,
    ;
    assert(ci == q2i * di + r2i && 0 <= r2i < di) by (nonlinear_arith)
        requires
            q2i == ci / di,
            r2i == ci % di,
            di > 0,
    ;
    if q1 < q2 {
        assert(ai * di < ci * bi) by (nonlinear_arith)
            requires
                ai == q1i * bi + r1i,
                ci == q2i * di + r2i,
                0 <= r1i < bi,
                0 <= r2i < di,
                q1i < q2i,
        ;
        Ordering::Less
    } else if q1 > q2 {
        assert(ai * di > ci * bi) by (nonlinear_arith)
            requires
                ai == q1i * bi + r1i,
                ci == q2i * di + r2i,
                0 <= r1i < bi,
                0 <= r2i < di,
                q1i > q2i,
        ;
        Ordering::Greater
    } else {
        assert(ai * di - ci * bi == r1i * di - r2i * bi) by (nonlinear_arith)
            requires
                ai == q1i * bi + r1i,
                ci == q2i * di + r2i,
                q1i == q2i,
        ;
        if r1 == 0 && r2 == 0 {
            Ordering::Equal
        } else if r1 == 0 {
            assert(r2i * bi > 0) by (nonlinear_arith)
                requires
                    r2i > 0,
                    bi > 0,
            ;
            Ordering::Less
        } else if r2 == 0 {
            assert(r1i * di > 0) by (nonlinear_arith)
                requires
                    r1i > 0,
                    di > 0,
            ;
            Ordering::Greater
        } else {
            let r = cmp_fraction(d, r2, b, r1);
            assert(di * r1i == r1i * di && bi * r2i == r2i * bi) by (nonlinear_arith);
            r
        }
    }
}

/// Whether `a` comes before `b` in dictionary order of character codes,
/// a proper prefix coming first.
pub open spec fn lex_less(a: Seq<char>, b: Seq<char>) -> bool
    decreases a.len(),
{
    if a.len() == 0 {
        b.len() > 0
    } else if b.len() == 0 {
        false
    } else if a[0] != b[0] {
        (a[0] as int) < (b[0] as int)
    } else {
        lex_less(a.drop_first(), b.drop_first())
    }
}

/// The order among entries of equal score: the shorter entry first, and
/// among entries of one length, the first in dictionary order.
pub open spec fn precedes(a: Seq<char>, b: Seq<char>) -> bool {
    a.len() < b.len() || (a.len() == b.len() && lex_less(a, b))
}

/// Whether the entry `x` (a word with its n-grams) beats the entry `y` for
/// the query n-grams `q`: by a higher score, or by an equal score and
/// `precedes` on the words.
pub open spec fn ranks_above(
    x: (Seq<char>, Set<Seq<char>>),
    y: (Seq<char>, Set<Seq<char>>),
    q: Set<Seq<char>>,
) -> bool {
    let lhs = score_num(q, x.1) * score_den(q, y.1);
    let rhs = score_num(q, y.1) * score_den(q, x.1);
    lhs > rhs || (lhs == rhs && precedes(x.0, y.0))
}

/// The best of `es` for the query n-grams `q`, taking the entries one by
/// one and keeping the one that ranks above the others.
pub open spec fn best_entry(es: Seq<(Seq<char>, Set<Seq<char>>)>, q: Set<Seq<char>>) -> Option<
    (Seq<char>, Set<Seq<char>>),
>
    decreases es.len(),
{
    if es.len() == 0 {
        None
    } else {
        let last = es.last();
        match best_entry(es.drop_last(), q) {
            None => Some(last),
            Some(b) => if ranks_above(last, b, q) {
                Some(last)
            } else {
                Some(b)
            },
        }
    }
}

/// The word of the best entry of `es` for the query n-grams `q`, if `es`
/// has any entry.
pub open spec fn closest_word(es: Seq<(Seq<char>, Set<Seq<char>>)>, q: Set<Seq<char>>) -> Option<
    Seq<char>,
> {
    match best_entry(es, q) {
        None => None,
        Some(e) => Some(e.0),
    }
}

/// Whether `e` is an entry of `es` that no entry of `es` ranks above.
pub open spec fn is_top(
    es: Seq<(Seq<char>, Set<Seq<char>>)>,
    e: (Seq<char>, Set<Seq<char>>),
    q: Set<Seq<char>>,
) -> bool {
    &&& es.contains(e)
    &&& forall|j: int| 0 <= j < es.len() ==> !ranks_above(#[trigger] es[j], e, q)
}

proof fn lemma_lex_irreflexive(a: Seq<char>)
    ensures
        !lex_less(a, a),
    decreases a.len(),
{
    if a.len() > 0 {
        lemma_lex_irreflexive(a.drop_first());
    }
}

proof fn lemma_lex_transitive(a: Seq<char>, b: Seq<char>, c: Seq<char>)
    requires
        lex_less(a, b),
        lex_less(b, c),
    ensures
        lex_less(a, c),
    decreases a.len(),
{
    if a.len() > 0 && b.len() > 0 && c.len() > 0 && a[0] == b[0] && b[0] == c[0] {
        lemma_lex_transitive(a.drop_first(), b.drop_first(), c.drop_first());
    }
}

proof fn lemma_lex_total(a: Seq<char>, b: Seq<char>)
    requires
        a != b,
    ensures
        lex_less(a, b) || lex_less(b, a),
    decreases a.len(),
{
    if a.len() == 0 && b.len() == 0 {
        assert(a =~= b);
    }
    if a.len() > 0 && b.len() > 0 && a[0] == b[0] {
        if a.drop_first() == b.drop_first() {
            assert(a =~= seq![a[0]] + a.drop_first());
            assert(b =~= seq![b[0]] + b.drop_first());
        }
        lemma_lex_total(a.drop_first(), b.drop_first());
    }
}

/// Comparing fractions with positive denominators by cross products is
/// transitive, and strict as soon as one of the two steps is.
proof fn lemma_cross_transitive(a: int, b: int, c: int, d: int, e: int, f: int)
    requires
        b > 0,
        d > 0,
        f > 0,
        a * d >= c * b,
        c * f >= e * d,
    ensures
        a * f >= e * b,
        (a * d > c * b || c * f > e * d) ==> a * f > e * b,
{
    assert(a * d * f >= c * b * f) by (nonlinear_arith)
        requires
            a * d >= c * b,
            f > 0,
    ;
    assert(c * f * b >= e * d * b) by (nonlinear_arith)
        requires
            c * f >= e * d,
            b > 0,
    ;
    assert(a * f >= e * b) by (nonlinear_arith)
        requires
            a * d * f >= c * b * f,
            c * f * b >= e * d * b,
            d > 0,
    ;
    if a * d > c * b {
        assert(a * d * f > c * b * f) by (nonlinear_arith)
            requires
                a * d > c * b,
                f > 0,
        ;
    }
    if c * f > e * d {
        assert(c * f * b > e * d * b) by (nonlinear_arith)
            requires
                c * f > e * d,
                b > 0,
        ;
    }
    if a * d > c * b || c * f > e * d {
        assert(a * f > e * b) by (nonlinear_arith)
            requires
                a * d * f >= c * b * f,
                c * f * b >= e * d * b,
                a * d * f > c * b * f || c * f * b > e * d * b,
                d > 0,
        ;
    }
}

proof fn lemma_rank_transitive(
    x: (Seq<char>, Set<Seq<char>>),
    y: (Seq<char>, Set<Seq<char>>),
    z: (Seq<char>, Set<Seq<char>>),
    q: Set<Seq<char>>,
)
    requires
        ranks_above(x, y, q),
        ranks_above(y, z, q),
    ensures
        ranks_above(x, z, q),
{
    let (a, b) = (score_num(q, x.1), score_den(q, x.1));
    let (c, d) = (score_num(q, y.1), score_den(q, y.1));
    let (e, f) = (score_num(q, z.1), score_den(q, z.1));
    lemma_cross_transitive(a, b, c, d, e, f);
    if a * d == c * b && c * f == e * d {
        assert(a * f == e * b) by (nonlinear_arith)
            requires
                a * d == c * b,
                c * f == e * d,
                b > 0,
                d > 0,
                f > 0,
        ;
        if x.0.len() == y.0.len() && y.0.len() == z.0.len() {
            lemma_lex_transitive(x.0, y.0, z.0);
        }
    }
}

proof fn lemma_rank_irreflexive(x: (Seq<char>, Set<Seq<char>>), q: Set<Seq<char>>)
    ensures
        !ranks_above(x, x, q),
{
    lemma_lex_irreflexive(x.0);
}

/// Two entries of which neither ranks above the other have the same word.
proof fn lemma_rank_total(
    x: (Seq<char>, Set<Seq<char>>),
    y: (Seq<char>, Set<Seq<char>>),
    q: Set<Seq<char>>,
)
    requires
        !ranks_above(x, y, q),
        !ranks_above(y, x, q),
    ensures
        x.0 == y.0,
{
    if x.0 != y.0 {
        lemma_lex_total(x.0, y.0);
    }
}

/// The best entry is an entry that no other entry ranks above; there is one
/// exactly when `es` is not empty.
proof fn lemma_best_entry_is_top(es: Seq<(Seq<char>, Set<Seq<char>>)>, q: Set<Seq<char>>)
    ensures
        best_entry(es, q) is None <==> es.len() == 0,
        best_entry(es, q) is Some ==> is_top(es, best_entry(es, q)->0, q),
    decreases es.len(),
{
    if es.len() > 0 {
        let rest = es.drop_last();
        let last = es.last();
        lemma_best_entry_is_top(rest, q);
        assert(es =~= rest.push(last));
        match best_entry(rest, q) {
            None => {
                assert(es.len() == 1);
                lemma_rank_irreflexive(last, q);
                assert(es[0] == last);
            },
            Some(b) => {
                let r = best_entry(es, q)->0;
                if ranks_above(last, b, q) {
                    assert forall|j: int| 0 <= j < es.len() implies !ranks_above(
                        #[trigger] es[j],
                        r,
                        q,
                    ) by {
                        if j < rest.len() {
                            assert(es[j] == rest[j]);
                            if ranks_above(es[j], last, q) {
                                lemma_rank_transitive(es[j], last, b, q);
                            }
                        } else {
                            lemma_rank_irreflexive(last, q);
                        }
                    }
                    assert(es[es.len() - 1] == last);
                } else {
                    assert forall|j: int| 0 <= j < es.len() implies !ranks_above(
                        #[trigger] es[j],
                        r,
                        q,
                    ) by {
                        if j < rest.len() {
                            assert(es[j] == rest[j]);
                        }
                    }
                    let k = choose|k: int| 0 <= k < rest.len() && rest[k] == b;
                    assert(es[k] == b);
                }
            },
        }
    }
}

/// `a` and `b` agree on their first `i` characters, so that dictionary order
/// is decided by what follows.
proof fn lemma_lex_skip(a: Seq<char>, b: Seq<char>, i: int)
    requires
        0 <= i <= a.len(),
        i <= b.len(),
        a.take(i) == b.take(i),
    ensures
        lex_less(a, b) == lex_less(a.skip(i), b.skip(i)),
    decreases i,
{
    if i > 0 {
        assert(a[0] == a.take(i)[0]);
        assert(b[0] == b.take(i)[0]);
        assert(a.drop_first().take(i - 1) =~= a.take(i).drop_first());
        assert(b.drop_first().take(i - 1) =~= b.take(i).drop_first());
        lemma_lex_skip(a.drop_first(), b.drop_first(), i - 1);
        assert(a.drop_first().skip(i - 1) =~= a.skip(i));
        assert(b.drop_first().skip(i - 1) =~= b.skip(i));
    } else {
        assert(a.skip(0) =~= a);
        assert(b.skip(0) =~= b);
    }
}

/// Whether the word `a` goes before the word `b` among entries of equal
/// score.
fn precedes_chars(a: &Vec<char>, b: &Vec<char>) -> (r: bool)
    ensures
        r == precedes(a@, b@),
{
    let n = a.len();
    if n != b.len() {
        return n < b.len();
    }
    let mut i: usize = 0;
    while i < n
        invariant
            n == a@.len(),
            n == b@.len(),
            i <= n,
            a@.take(i as int) == b@.take(i as int),
        decreases n - i,
    {
        if a[i] != b[i] {
            proof {
                lemma_lex_skip(a@, b@, i as int);
                assert(a@.skip(i as int)[0] == a@[i as int]);
                assert(b@.skip(i as int)[0] == b@[i as int]);
            }
            return a[i] < b[i];
        }
        assert(a@.take(i + 1) =~= a@.take(i as int).push(a@[i as int]));
        assert(b@.take(i + 1) =~= b@.take(i as int).push(b@[i as int]));
        i = i + 1;
    }
    proof {
        assert(a@ =~= a@.take(n as int));
        assert(b@ =~= b@.take(n as int));
        lemma_lex_irreflexive(a@);
    }
    false
}

/// Whether the entry with score `x` and word `xw` ranks above the entry with
/// score `y` and word `yw`: a higher score wins, and between equal scores
/// the word that `precedes` the other.
fn max_score(x: Score, xw: &Vec<char>, y: Score, yw: &Vec<char>) -> (r: bool)
    ensures
        r == (x.num() * y.den() > y.num() * x.den() || (x.num() * y.den() == y.num() * x.den()
            && precedes(xw@, yw@))),
{
    let xn: u128 = 2 * (x.shared as u128);
    let yn: u128 = 2 * (y.shared as u128);
    let xd: u128 = if x.total == 0 {
        1
    } else {
        x.total
    };
    let yd: u128 = if y.total == 0 {
        1
    } else {
        y.total
    };
    match cmp_fraction(xn, xd, yn, yd) {
        Ordering::Greater => true,
        Ordering::Less => false,
        Ordering::Equal => precedes_chars(xw, yw),
    }
}

/// Why a window-size configuration is refused.
#[derive(Clone, Copy, Debug, PartialEq, Eq, Structural)]
pub enum ConfigError {
    /// No window size was given.
    NoWindowSizes,
    /// A window size is 0.
    ZeroWindowSize,
}

/// One vocabulary entry of the index, with its characters and its n-grams.
struct Entry {
    word: String,
    chars: Vec<char>,
    subs: NgramSet,
}

impl Entry {
    /// The entry is `word` with its n-grams for `sizes`.
    spec fn is_entry_for(&self, word: Seq<char>, sizes: Seq<usize>) -> bool {
        &&& self.word@ == word
        &&& self.chars@ == word
        &&& self.subs@ == ngrams(lower_of(word), sizes)
    }
}

/// Indexes one vocabulary entry.
fn make_entry(word: &String, sizes: &Vec<usize>) -> (r: Entry)
    requires
        sizes_positive(sizes@),
    ensures
        r.is_entry_for(word@, sizes@),
{
    Entry { word: word.clone(), chars: chars_of(word.as_str()), subs: split_word(word.as_str(), sizes) }
}

/// Relies on rayon's `par_iter`, `map` and `collect_into_vec`: the entries
/// are indexed in parallel, and each result lands at the position of its
/// word.
#[verifier::external_body]
fn make_entries(dictionary: &Vec<String>, sizes: &Vec<usize>) -> (r: Vec<Entry>)
    requires
        sizes_positive(sizes@),
    ensures
        r@.len() == dictionary@.len(),
        forall|i: int| 0 <= i < r@.len() ==> (#[trigger] r@[i]).is_entry_for(dictionary@[i]@, sizes@),
{
    let mut out = Vec::new();
    dictionary.par_iter().map(|w| make_entry(w, sizes)).collect_into_vec(&mut out);
    out
}

/// Relies on rayon's `par_iter`, `map` and `collect_into_vec`: the entries
/// are scored in parallel, and each score lands at the position of its
/// entry.
#[verifier::external_body]
fn score_entries(word_subs: &NgramSet, entries: &Vec<Entry>) -> (r: Vec<Score>)
    ensures
        r@.len() == entries@.len(),
        forall|i: int|
            0 <= i < r@.len() ==> (#[trigger] r@[i]).is_score_of(word_subs@, entries@[i].subs@),
{
    let mut out = Vec::new();
    entries.par_iter().map(|e| evaluate(word_subs, &e.subs)).collect_into_vec(&mut out);
    out
}

/// The index entries of the vocabulary `dict` for the window sizes `sizes`:
/// each word with its n-grams, in the order of the vocabulary.
pub open spec fn index_entries(dict: Seq<Seq<char>>, sizes: Seq<usize>) -> Seq<
    (Seq<char>, Set<Seq<char>>),
> {
    dict.map_values(|w: Seq<char>| (w, ngrams(lower_of(w), sizes)))
}

/// The characters of each string of `v`.
pub open spec fn words_of(v: Seq<String>) -> Seq<Seq<char>> {
    v.map_values(|s: String| s@)
}

/// The characters of the string that `r` holds, if any.
pub open spec fn word_of(r: Option<String>) -> Option<Seq<char>> {
    match r {
        Some(s) => Some(s@),
        None => None,
    }
}

/// A vocabulary indexed by n-grams, for finding the entry closest to a query.
/// Every entry is kept, in the order given; an entry that occurs twice
/// occurs twice here, which changes no result, since equal words score the
/// same.
pub struct ClosestMatch {
    substrings: Vec<Entry>,
    substring_sizes: Vec<usize>,
}

impl ClosestMatch {
    /// Each entry of the vocabulary with its n-grams.
    pub closed spec fn entries(&self) -> Seq<(Seq<char>, Set<Seq<char>>)> {
        self.substrings@.map_values(|e: Entry| (e.word@, e.subs@))
    }

    /// The window sizes the index was built with.
    pub closed spec fn sizes(&self) -> Seq<usize> {
        self.substring_sizes@
    }

    /// The sizes are a usable configuration and every entry holds its own
    /// n-grams.
    #[verifier::type_invariant]
    closed spec fn wf(&self) -> bool {
        &&& self.sizes().len() > 0
        &&& sizes_positive(self.sizes())
        &&& forall|i: int|
            0 <= i < self.substrings@.len() ==> (#[trigger] self.substrings@[i]).is_entry_for(
                self.substrings@[i].word@,
                self.sizes(),
            )
    }

    /// Indexes `dictionary` with the window sizes `sizes`. The sizes must be
    /// at least one, and all positive.
    pub fn new(dictionary: Vec<String>, sizes: Vec<usize>) -> (r: Result<ClosestMatch, ConfigError>)
        ensures
            sizes@.len() == 0 ==> r == Err::<ClosestMatch, ConfigError>(ConfigError::NoWindowSizes),
            sizes@.len() > 0 && !sizes_positive(sizes@) ==> r == Err::<ClosestMatch, ConfigError>(
                ConfigError::ZeroWindowSize,
            ),
            sizes@.len() > 0 && sizes_positive(sizes@) ==> {
                &&& r is Ok
                &&& r->Ok_0.sizes() == sizes@
                &&& r->Ok_0.entries() == index_entries(words_of(dictionary@), sizes@)
            },
    {
        if sizes.len() == 0 {
            return Err(ConfigError::NoWindowSizes);
        }
        let mut k: usize = 0;
        while k < sizes.len()
            invariant
                k <= sizes@.len(),
                forall|m: int| 0 <= m < k ==> sizes@[m] > 0,
            decreases sizes@.len() - k,
        {
            if sizes[k] == 0 {
                return Err(ConfigError::ZeroWindowSize);
            }
            k = k + 1;
        }
        let substrings = make_entries(&dictionary, &sizes);
        let r = ClosestMatch { substrings, substring_sizes: sizes };
        assert(r.entries() =~= index_entries(words_of(dictionary@), sizes@));
        Ok(r)
    }

    /// The vocabulary entry closest to `word`: the one whose n-grams overlap
    /// those of `word` with the highest score, ties going to the shorter
    /// entry, then to the first in dictionary order. `None` when the
    /// vocabulary is empty.
    pub fn get_closest(&self, word: &str) -> (r: Option<String>)
        ensures
            word_of(r) == closest_word(self.entries(), ngrams(lower_of(word@), self.sizes())),
            r is None <==> self.entries().len() == 0,
            r is Some ==> exists|e: (Seq<char>, Set<Seq<char>>)|
                is_top(self.entries(), e, ngrams(lower_of(word@), self.sizes())) && e.0
                    == r->0@,
    {
        proof {
            use_type_invariant(self);
        }
        let word_subs = split_word(word, &self.substring_sizes);
        self.closest_to_ngrams(&word_subs)
    }

    /// The vocabulary entry whose n-grams overlap `word_subs` with the
    /// highest score, ties going to the shorter entry, then to the first in
    /// dictionary order. `None` when the vocabulary is empty.
    pub fn closest_to_ngrams(&self, word_subs: &NgramSet) -> (r: Option<String>)
        ensures
            word_of(r) == closest_word(self.entries(), word_subs@),
            r is None <==> self.entries().len() == 0,
            r is Some ==> exists|e: (Seq<char>, Set<Seq<char>>)|
                is_top(self.entries(), e, word_subs@) && e.0 == r->0@,
    {
        proof {
            use_type_invariant(self);
        }
        let ghost es = self.entries();
        let ghost q = word_subs@;
        let scores = score_entries(word_subs, &self.substrings);
        let n = self.substrings.len();
        let mut best: Option<usize> = None;
        let mut i: usize = 0;
        while i < n
            invariant
                es == self.entries(),
                n == es.len(),
                self.wf(),
                q == word_subs@,
                scores@.len() == n,
                forall|m: int|
                    0 <= m < n ==> (#[trigger] scores@[m]).is_score_of(q, self.substrings@[m].subs@),
                i <= n,
                match best {
                    None => i == 0,
                    Some(b) => b < i && best_entry(es.take(i as int), q) == Some(es[b as int]),
                },
            decreases n - i,
        {
            proof {
                assert(es.take(i + 1).drop_last() =~= es.take(i as int));
                assert(es.take(i + 1).last() == es[i as int]);
            }
            match best {
                None => {
                    best = Some(i);
                },
                Some(b) => {
                    let e = &self.substrings[i];
                    let cur = &self.substrings[b];
                    if max_score(scores[i], &e.chars, scores[b], &cur.chars) {
                        best = Some(i);
                    }
                },
            }
            i = i + 1;
        }
        proof {
            assert(es.take(n as int) =~= es);
            lemma_best_entry_is_top(es, q);
        }
        match best {
            None => None,
            Some(b) => Some(self.substrings[b].word.clone()),
        }
    }
}

/// An empty vocabulary matches no query.
pub proof fn lemma_empty_vocabulary_has_no_match(sizes: Seq<usize>, query: Seq<char>)
    ensures
        closest_word(index_entries(Seq::<Seq<char>>::empty(), sizes), ngrams(lower_of(query), sizes))
            is None,
{
    assert(index_entries(Seq::<Seq<char>>::empty(), sizes) =~= Seq::<
        (Seq<char>, Set<Seq<char>>),
    >::empty());
}

/// Two entries that nothing in the index ranks above carry the same word:
/// whatever order or grouping a search takes the entries in, it can end on
/// one word only.
pub proof fn lemma_top_entry_is_unique(
    es: Seq<(Seq<char>, Set<Seq<char>>)>,
    q: Set<Seq<char>>,
    e1: (Seq<char>, Set<Seq<char>>),
    e2: (Seq<char>, Set<Seq<char>>),
)
    requires
        is_top(es, e1, q),
        is_top(es, e2, q),
    ensures
        e1.0 == e2.0,
{
    let i1 = choose|i: int| 0 <= i < es.len() && es[i] == e1;
    let i2 = choose|i: int| 0 <= i < es.len() && es[i] == e2;
    assert(!ranks_above(es[i1], e2, q));
    assert(!ranks_above(es[i2], e1, q));
    lemma_rank_total(e1, e2, q);
}

/// The closest word depends on which entries the index holds, not on their
/// order: rearranging the entries, or splitting them among workers, leaves
/// the answer as it is.
pub proof fn lemma_closest_ignores_entry_order(
    es1: Seq<(Seq<char>, Set<Seq<char>>)>,
    es2: Seq<(Seq<char>, Set<Seq<char>>)>,
    q: Set<Seq<char>>,
)
    requires
        forall|e: (Seq<char>, Set<Seq<char>>)| es1.contains(e) <==> es2.contains(e),
    ensures
        closest_word(es1, q) == closest_word(es2, q),
{
    lemma_best_entry_is_top(es1, q);
    lemma_best_entry_is_top(es2, q);
    if es1.len() > 0 {
        assert(es2.contains(es1[0]));
    }
    if es2.len() > 0 {
        assert(es1.contains(es2[0]));
    }
    if es1.len() > 0 && es2.len() > 0 {
        let b1 = best_entry(es1, q)->0;
        let b2 = best_entry(es2, q)->0;
        let i1 = choose|i: int| 0 <= i < es2.len() && es2[i] == b1;
        let i2 = choose|i: int| 0 <= i < es1.len() && es1[i] == b2;
        assert(!ranks_above(es2[i1], b2, q));
        assert(!ranks_above(es1[i2], b1, q));
        lemma_rank_total(b1, b2, q);
    }
}

/// An entry whose n-grams are exactly the query's, when there are any,
/// scores 1 and wins: the closest word then carries the query's n-grams.
pub proof fn lemma_exact_match_wins(es: Seq<(Seq<char>, Set<Seq<char>>)>, q: Set<Seq<char>>, i: int)
    requires
        0 <= i < es.len(),
        es[i].1 == q,
        q.finite(),
        q.len() > 0,
        forall|j: int| 0 <= j < es.len() ==> (#[trigger] es[j]).1.finite(),
    ensures
        match best_entry(es, q) {
            Some(b) => b.1 == q,
            None => false,
        },
{
    lemma_best_entry_is_top(es, q);
    let b = best_entry(es, q)->0;
    let k = choose|k: int| 0 <= k < es.len() && es[k] == b;
    assert(es[k] == b);
    let s = b.1;
    assert(s.finite());
    assert(q.intersect(q) =~= q);
    assert(!ranks_above(es[i], b, q));
    let (n1, d1) = (score_num(q, q), score_den(q, q));
    let (n2, d2) = (score_num(q, s), score_den(q, s));
    assert(n1 == d1);
    lemma_score_bounded(q, s);
    assert(n2 * d1 >= n1 * d2) by (nonlinear_arith)
        requires
            !(n1 * d2 > n2 * d1),
    ;
    assert(n2 == d2) by (nonlinear_arith)
        requires
            n2 * d1 >= n1 * d2,
            n1 == d1,
            d1 > 0,
            0 <= n2 <= d2,
    ;
    lemma_len_intersect(q, s);
    lemma_len_intersect(s, q);
    assert(q.intersect(s) =~= s.intersect(q));
    assert(q.intersect(s).len() == q.len() && q.intersect(s).len() == s.len());
    lemma_subset_equality(q.intersect(s), q);
    lemma_subset_equality(s.intersect(q), s);
    assert(q =~= s);
}

} // verus!
