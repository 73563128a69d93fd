//! Character n-grams of a string, as a set, and the overlap score of two sets.

use vstd::prelude::*;
use vstd::relations::injective_on;
use vstd::set_lib::{lemma_len_intersect, lemma_map_size, lemma_subset_equality};

verus! {

/// What `str::to_lowercase` makes of a sequence of characters.
pub uninterp spec fn lower_of(s: Seq<char>) -> Seq<char>;

/// Relies on `str::to_lowercase`: its result depends on the characters of the
/// input alone.
#[verifier::external_body]
fn lowercase(s: &str) -> (r: String)
    ensures
        r@ == lower_of(s@),
{
    s.to_lowercase()
}

/// Whether `g` is a run of `sizes[k]` consecutive characters of `t`, for some `k`.
pub open spec fn is_ngram(t: Seq<char>, sizes: Seq<usize>, g: Seq<char>) -> bool {
    exists|k: int, j: int|
        0 <= k < sizes.len() && 0 <= j && j + sizes[k] <= t.len() && #[trigger] t.subrange(
            j,
            j + sizes[k],
        ) == g
}

/// The n-grams of `t` for the window sizes `sizes`: every run of consecutive
/// characters whose length is one of the sizes.
pub open spec fn ngrams(t: Seq<char>, sizes: Seq<usize>) -> Set<Seq<char>> {
    Set::new(|g: Seq<char>| is_ngram(t, sizes, g))
}

/// Window sizes are usable when every one of them is positive.
pub open spec fn sizes_positive(sizes: Seq<usize>) -> bool {
    forall|k: int| 0 <= k < sizes.len() ==> sizes[k] > 0
}

/// A finite set of n-grams, held without repetition.
#[derive(Debug)]
pub struct NgramSet {
    grams: Vec<Vec<char>>,
}

impl NgramSet {
    /// The n-grams in the order they were added.
    pub closed spec fn items(&self) -> Seq<Seq<char>> {
        self.grams@.map_values(|g: Vec<char>| g@)
    }

    /// No n-gram is held twice.
    #[verifier::type_invariant]
    closed spec fn wf(&self) -> bool {
        self.items().no_duplicates()
    }

    /// The empty set.
    pub fn new() -> (r: NgramSet)
        ensures
            r@ == Set::<Seq<char>>::empty(),
            r@.finite(),
    {
        let r = NgramSet { grams: Vec::new() };
        assert(r.items() =~= Seq::<Seq<char>>::empty());
        r
    }

    /// The number of n-grams in the set.
    pub fn len(&self) -> (r: usize)
        requires
        ensures
            r == self@.len(),
    {
        proof {
            use_type_invariant(self);
            self.items().unique_seq_to_set();
        }
        self.grams.len()
    }

    /// Whether `g` is in the set.
    pub fn contains(&self, g: &Vec<char>) -> (r: bool)
        ensures
            r == self@.contains(g@),
    {
        let mut i: usize = 0;
        while i < self.grams.len()
            invariant
                i <= self.grams@.len(),
                forall|m: int| 0 <= m < i ==> self.items()[m] != g@,
            decreases self.grams@.len() - i,
        {
            if same_chars(&self.grams[i], g) {
                assert(self.items()[i as int] == g@);
                return true;
            }
            i = i + 1;
        }
        false
    }

    /// Adds `g`, unless it is there already.
    pub fn insert(&mut self, g: Vec<char>)
        ensures
            final(self)@ == old(self)@.insert(g@),
            final(self)@.finite(),
    {
        proof {
            use_type_invariant(&*self);
        }
        if !self.contains(&g) {
            let ghost before = self.items();
            let mut taken = NgramSet::new();
            std::mem::swap(self, &mut taken);
            let NgramSet { mut grams } = taken;
            grams.push(g);
            let ghost after = grams@.map_values(|v: Vec<char>| v@);
            assert(after =~= before.push(g@));
            *self = NgramSet { grams };
            proof {
                before.lemma_push_to_set_commute(g@);
            }
        } else {
            assert(self@ =~= self@.insert(g@));
        }
    }
}

impl PartialEq for NgramSet {
    /// Whether the two sets hold the same n-grams, in whatever order.
    fn eq(&self, other: &NgramSet) -> (r: bool) {
        proof {
            use_type_invariant(self);
            use_type_invariant(other);
        }
        if self.grams.len() != other.grams.len() {
            proof {
                self.items().unique_seq_to_set();
                other.items().unique_seq_to_set();
            }
            return false;
        }
        let mut i: usize = 0;
        while i < self.grams.len()
            invariant
                i <= self.items().len(),
                forall|m: int| 0 <= m < i ==> other@.contains(#[trigger] self.items()[m]),
            decreases self.items().len() - i,
        {
            if !other.contains(&self.grams[i]) {
                assert(self@.contains(self.items()[i as int]));
                return false;
            }
            i = i + 1;
        }
        proof {
            self.items().unique_seq_to_set();
            other.items().unique_seq_to_set();
            assert(self@.subset_of(other@));
            lemma_subset_equality(self@, other@);
        }
        true
    }
}

impl vstd::std_specs::cmp::PartialEqSpecImpl for NgramSet {
    open spec fn obeys_eq_spec() -> bool {
        true
    }

    open spec fn eq_spec(&self, other: &NgramSet) -> bool {
        self@ == other@
    }
}

impl View for NgramSet {
    type V = Set<Seq<char>>;

    closed spec fn view(&self) -> Set<Seq<char>> {
        self.items().to_set()
    }
}

/// Whether two character vectors hold the same characters.
fn same_chars(a: &Vec<char>, b: &Vec<char>) -> (r: bool)
    ensures
        r == (a@ == b@),
{
    if a.len() != b.len() {
        return false;
    }
    let mut i: usize = 0;
    while i < a.len()
        invariant
            a@.len() == b@.len(),
            i <= a@.len(),
            a@.subrange(0, i as int) == b@.subrange(0, i as int),
        decreases a@.len() - i,
    {
        if a[i] != b[i] {
            assert(a@[i as int] != b@[i as int]);
            return false;
        }
        assert(a@.subrange(0, i + 1) =~= a@.subrange(0, i as int).push(a@[i as int]));
        assert(b@.subrange(0, i + 1) =~= b@.subrange(0, i as int).push(b@[i as int]));
        i = i + 1;
    }
    assert(a@ =~= a@.subrange(0, i as int));
    assert(b@ =~= b@.subrange(0, i as int));
    true
}

/// The characters of `s`, one element each.
pub(crate) fn chars_of(s: &str) -> (r: Vec<char>)
    ensures
        r@ == s@,
{
    let mut out: Vec<char> = Vec::new();
    for c in it: s.chars()
        invariant
            it.seq() == s@,
            out@ == it.seq().take(it.index() as int),
    {
        assert(it.seq().take(it.index() + 1) =~= out@.push(c));
        out.push(c);
    }
    assert(out@ =~= s@);
    out
}

/// The run of `len` characters of `chars` that starts at `start`.
fn window(chars: &Vec<char>, start: usize, len: usize) -> (r: Vec<char>)
    requires
        start + len <= chars@.len(),
    ensures
        r@ == chars@.subrange(start as int, start + len),
{
    let mut out: Vec<char> = Vec::new();
    let mut i: usize = 0;
    let total = chars.len();
    while i < len
        invariant
            total == chars@.len(),
            start + len <= chars@.len(),
            i <= len,
            out@ == chars@.subrange(start as int, start + i),
        decreases len - i,
    {
        out.push(chars[start + i]);
        i = i + 1;
        assert(out@ =~= chars@.subrange(start as int, start + i));
    }
    out
}

/// The n-grams found before window `j` of size index `k`: those of every
/// earlier size, and the first `j` windows of size `sizes[k]`.
spec fn found_before(t: Seq<char>, sizes: Seq<usize>, k: int, j: int) -> Set<Seq<char>> {
    Set::new(
        |g: Seq<char>|
            exists|k2: int, j2: int|
                0 <= k2 < sizes.len() && 0 <= j2 && j2 + sizes[k2] <= t.len() && (k2 < k || (k2
                    == k && j2 < j)) && #[trigger] t.subrange(j2, j2 + sizes[k2]) == g,
    )
}

/// The n-grams of `word` after lower-casing it, for every window size in
/// `sizes`. A size longer than the word contributes nothing.
pub fn split_word(word: &str, sizes: &Vec<usize>) -> (r: NgramSet)
    requires
        sizes_positive(sizes@),
    ensures
        r@ == ngrams(lower_of(word@), sizes@),
        r@.finite(),
{
    let lower = lowercase(word);
    ngrams_of_folded(lower.as_str(), sizes)
}

/// The n-grams of `text`, taken as it is (already lower-cased), for every
/// window size in `sizes`. A size longer than the text contributes nothing.
pub fn ngrams_of_folded(text: &str, sizes: &Vec<usize>) -> (r: NgramSet)
    requires
        sizes_positive(sizes@),
    ensures
        r@ == ngrams(text@, sizes@),
        r@.finite(),
{
    let chars = chars_of(text);
    let ghost t = chars@;
    let n = chars.len();
    let mut out = NgramSet::new();
    assert(out@ =~= found_before(t, sizes@, 0, 0));
    let mut k: usize = 0;
    while k < sizes.len()
        invariant
            t == chars@,
            n == t.len(),
            sizes_positive(sizes@),
            k <= sizes@.len(),
            out@ == found_before(t, sizes@, k as int, 0),
        decreases sizes@.len() - k,
    {
        let w = sizes[k];
        if w <= n {
            let mut j: usize = 0;
            while j <= n - w
                invariant
                    t == chars@,
                    n == t.len(),
                    k < sizes@.len(),
                    w == sizes@[k as int],
                    0 < w <= n,
                    j <= n - w + 1,
                    out@ == found_before(t, sizes@, k as int, j as int),
                decreases n - j,
            {
                let g = window(&chars, j, w);
                out.insert(g);
                assert(out@ =~= found_before(t, sizes@, k as int, j + 1)) by {
                    assert(t.subrange(j as int, j + sizes@[k as int]) == g@);
                };
                j = j + 1;
            }
            assert(out@ =~= found_before(t, sizes@, k + 1, 0));
        } else {
            assert(out@ =~= found_before(t, sizes@, k + 1, 0));
        }
        k = k + 1;
    }
    assert(out@ =~= ngrams(t, sizes@));
    out
}

/// Twice the number of n-grams that `a` and `b` share: the numerator of
/// their overlap score.
pub open spec fn score_num(a: Set<Seq<char>>, b: Set<Seq<char>>) -> int {
    2 * (a.intersect(b).len() as int)
}

/// The sizes of `a` and `b` together: the denominator of their overlap
/// score. When both are empty the score is 0, and the denominator is taken
/// as 1.
pub open spec fn score_den(a: Set<Seq<char>>, b: Set<Seq<char>>) -> int {
    if a.len() + b.len() == 0 {
        1
    } else {
        a.len() + b.len() as int
    }
}

/// The overlap of two n-gram sets: the score is `2 * shared / total`, and 0
/// when `total` is 0.
#[derive(Clone, Copy, Debug, PartialEq, Eq)]
pub struct Score {
    /// The number of n-grams in both sets.
    pub shared: usize,
    /// The sizes of the two sets added.
    pub total: u128,
}

impl Score {
    /// The numerator of the score as a fraction.
    pub open spec fn num(self) -> int {
        2 * self.shared
    }

    /// The denominator of the score as a fraction, never 0.
    pub open spec fn den(self) -> int {
        if self.total == 0 {
            1
        } else {
            self.total as int
        }
    }

    /// Whether this is the score of `a` against `b`.
    pub open spec fn is_score_of(self, a: Set<Seq<char>>, b: Set<Seq<char>>) -> bool {
        &&& self.shared == a.intersect(b).len()
        &&& self.total == a.len() + b.len()
    }
}

/// The overlap score of the n-grams of a query against those of a candidate.
pub fn evaluate(word_subs: &NgramSet, possible_subs: &NgramSet) -> (r: Score)
    ensures
        r.is_score_of(word_subs@, possible_subs@),
        r.num() == score_num(word_subs@, possible_subs@),
        r.den() == score_den(word_subs@, possible_subs@),
        0 <= r.num() <= r.den(),
{
    proof {
        use_type_invariant(word_subs);
        use_type_invariant(possible_subs);
    }
    let ghost items = word_subs.items();
    let mut count: usize = 0;
    let mut i: usize = 0;
    let n = word_subs.grams.len();
    proof {
        assert(items.take(0).to_set() =~= Set::<Seq<char>>::empty());
        assert(items.take(0).to_set().intersect(possible_subs@) =~= Set::<Seq<char>>::empty());
    }
    while i < n
        invariant
            items == word_subs.items(),
            items.no_duplicates(),
            n == items.len(),
            i <= n,
            count <= i,
            count == items.take(i as int).to_set().intersect(possible_subs@).len(),
        decreases n - i,
    {
        let ghost prev = items.take(i as int).to_set().intersect(possible_subs@);
        let ghost x = items[i as int];
        proof {
            assert(items.take(i + 1) =~= items.take(i as int).push(x));
            items.take(i as int).lemma_push_to_set_commute(x);
            assert(!items.take(i as int).contains(x));
        }
        if possible_subs.contains(&word_subs.grams[i]) {
            assert(items.take(i + 1).to_set().intersect(possible_subs@) =~= prev.insert(x));
            count = count + 1;
        } else {
            assert(items.take(i + 1).to_set().intersect(possible_subs@) =~= prev);
        }
        i = i + 1;
    }
    proof {
        assert(items.take(n as int) =~= items);
        items.unique_seq_to_set();
        possible_subs.items().unique_seq_to_set();
        lemma_score_bounded(word_subs@, possible_subs@);
    }
    Score { shared: count, total: n as u128 + possible_subs.grams.len() as u128 }
}

/// A string has no n-grams when every window size exceeds its length (for
/// strings whose length lower-casing keeps).
pub proof fn lemma_no_ngrams_when_windows_exceed_length(s: Seq<char>, sizes: Seq<usize>)
    requires
        forall|k: int| 0 <= k < sizes.len() ==> sizes[k] > s.len(),
        lower_of(s).len() == s.len(),
    ensures
        ngrams(lower_of(s), sizes) == Set::<Seq<char>>::empty(),
{
    assert(ngrams(lower_of(s), sizes) =~= Set::<Seq<char>>::empty());
}

/// With the single window size 1, a string has as many n-grams as its
/// lower-cased form has distinct characters.
pub proof fn lemma_unigram_count(s: Seq<char>)
    ensures
        ngrams(lower_of(s), seq![1usize]).len() == lower_of(s).to_set().len(),
{
    let t = lower_of(s);
    let sizes = seq![1usize];
    let f = |c: char| seq![c];
    assert forall|g: Seq<char>| ngrams(t, sizes).contains(g) <==> #[trigger] t.to_set().map(
        f,
    ).contains(g) by {
        if ngrams(t, sizes).contains(g) {
            let (k, j) = choose|k: int, j: int|
                0 <= k < sizes.len() && 0 <= j && j + sizes[k] <= t.len() && #[trigger] t.subrange(
                    j,
                    j + sizes[k],
                ) == g;
            assert(k == 0);
            assert(g =~= seq![t[j]]);
            assert(t.to_set().contains(t[j]));
            assert(f(t[j]) == g);
        }
        if t.to_set().map(f).contains(g) {
            let c = choose|c: char| t.to_set().contains(c) && f(c) == g;
            let j = choose|j: int| 0 <= j < t.len() && t[j] == c;
            assert(t.subrange(j, j + sizes[0]) =~= g);
        }
    }
    assert(ngrams(t, sizes) =~= t.to_set().map(f));
    assert(injective_on(f, t.to_set())) by {
        assert forall|x: char, y: char|
            t.to_set().contains(x) && t.to_set().contains(y) && #[trigger] f(x) == #[trigger] f(
                y,
            ) implies x == y by {
            assert(f(x)[0] == x);
            assert(f(y)[0] == y);
        }
    }
    lemma_map_size(t.to_set(), ngrams(t, sizes), f);
}

/// The overlap score does not depend on the order of its two sets.
pub proof fn lemma_score_symmetric(a: Set<Seq<char>>, b: Set<Seq<char>>)
    ensures
        score_num(a, b) == score_num(b, a),
        score_den(a, b) == score_den(b, a),
{
    assert(a.intersect(b) =~= b.intersect(a));
}

/// The overlap score of two finite sets lies between 0 and 1, and is 1 for
/// a non-empty set against itself.
pub proof fn lemma_score_bounded(a: Set<Seq<char>>, b: Set<Seq<char>>)
    requires
        a.finite(),
        b.finite(),
    ensures
        0 <= score_num(a, b) <= score_den(a, b),
        a == b && a.len() > 0 ==> score_num(a, b) == score_den(a, b),
{
    lemma_len_intersect(a, b);
    lemma_len_intersect(b, a);
    assert(a.intersect(b) =~= b.intersect(a));
    if a == b {
        assert(a.intersect(b) =~= a);
    }
}

} // verus!
