use vstd::prelude::*;

use vstd::hash_map::StringHashMap;

use crate::chars::{
    char_is_alphanumeric, char_is_whitespace, char_to_lowercase, chars_of, is_ascii_char,
    is_whitespace, words, is_alphanumeric, join_with, lemma_join_extend_last, lemma_join_push,
    lemma_runs_nonempty, lower_word_char, push_char, push_chars, runs, to_lowercase,
};

verus! {

broadcast use vstd::string::group_string_axioms;

/// Whether `c` is one of the quote characters that search ignores.
pub open spec fn is_quote_spec(c: char) -> bool {
    c == '\'' || c == '"' || c == '`' || c == '\u{2018}' || c == '\u{2019}' || c == '\u{201A}'
        || c == '\u{201B}' || c == '\u{201C}' || c == '\u{201D}' || c == '\u{201E}'
        || c == '\u{201F}' || c == '\u{02BC}' || c == '\u{02B9}' || c == '\u{02C8}'
        || c == '\u{FF07}' || c == '\u{FF02}'
}

/// Whether `c` is one of the quote characters that search ignores.
pub fn is_quote(c: char) -> (r: bool)
    ensures
        r == is_quote_spec(c),
{
    c == '\'' || c == '"' || c == '`' || c == '\u{2018}' || c == '\u{2019}' || c == '\u{201A}'
        || c == '\u{201B}' || c == '\u{201C}' || c == '\u{201D}' || c == '\u{201E}'
        || c == '\u{201F}' || c == '\u{02BC}' || c == '\u{02B9}' || c == '\u{02C8}'
        || c == '\u{FF07}' || c == '\u{FF02}'
}

/// `s` with every quote character taken out.
pub open spec fn strip_quotes(s: Seq<char>) -> Seq<char>
    decreases s.len(),
{
    if s.len() == 0 {
        s
    } else if is_quote_spec(s.last()) {
        strip_quotes(s.drop_last())
    } else {
        strip_quotes(s.drop_last()).push(s.last())
    }
}

/// The predicate "alphanumeric", as `char::is_alphanumeric` decides it.
pub open spec fn alphanumeric() -> spec_fn(char) -> bool {
    |c: char| char_is_alphanumeric(c)
}

/// The lowercase form of a word: each character replaced by its lowercase mapping.
pub open spec fn lowercase_word(w: Seq<char>) -> Seq<char>
    decreases w.len(),
{
    if w.len() == 0 {
        seq![]
    } else {
        lowercase_word(w.drop_last()) + char_to_lowercase(w.last())
    }
}

/// Each word in lowercase.
pub open spec fn lowercase_words(ws: Seq<Seq<char>>) -> Seq<Seq<char>> {
    ws.map_values(|w: Seq<char>| lowercase_word(w))
}

/// The words that search sees in `s`: the maximal runs of alphanumeric characters
/// once the quote characters are taken out.
pub open spec fn search_tokens(s: Seq<char>) -> Seq<Seq<char>> {
    runs(strip_quotes(s), alphanumeric())
}

/// The normal form of `s` that search compares: its tokens in lowercase, separated
/// by single spaces.
pub open spec fn normalize_spec(s: Seq<char>) -> Seq<char> {
    join_with(lowercase_words(search_tokens(s)), seq![' '])
}

/// Whether `t` is made of words of `lower_word_char` characters separated by single
/// spaces, with no space at either end.
pub open spec fn normal_form(t: Seq<char>) -> bool {
    &&& forall|k: int| 0 <= k < t.len() ==> #[trigger] t[k] == ' ' || lower_word_char(t[k])
    &&& t.len() > 0 ==> t[0] != ' ' && t.last() != ' '
    &&& forall|k: int| 0 <= k < t.len() - 1 && #[trigger] t[k] == ' ' ==> t[k + 1] != ' '
}

proof fn lemma_normal_form_append(t: Seq<char>, sep: Seq<char>, w: Seq<char>)
    requires
        normal_form(t),
        w.len() > 0,
        forall|k: int| 0 <= k < w.len() ==> lower_word_char(#[trigger] w[k]),
        sep == Seq::<char>::empty() || (sep == seq![' '] && t.len() > 0),
    ensures
        normal_form(t + sep + w),
{
    let u = t + sep + w;
    let n = t.len() as int;
    let m = sep.len() as int;
    assert(lower_word_char(w[0]));
    assert(lower_word_char(w[w.len() - 1]));
    assert forall|k: int| 0 <= k < u.len() implies #[trigger] u[k] == ' ' || lower_word_char(u[k]) by {
        if k < n {
            assert(u[k] == t[k]);
        } else if k >= n + m {
            assert(u[k] == w[k - n - m]);
        } else {
            assert(u[k] == sep[k - n]);
        }
    }
    if n > 0 {
        assert(u[0] == t[0]);
    } else {
        assert(u[0] == w[0]);
    }
    assert(u.last() == w.last());
    assert forall|k: int| 0 <= k < u.len() - 1 && #[trigger] u[k] == ' ' implies u[k + 1] != ' ' by {
        if k < n - 1 {
            assert(u[k] == t[k]);
            assert(u[k + 1] == t[k + 1]);
        } else if k == n - 1 {
            assert(u[k] == t[n - 1]);
        } else if k < n + m {
            assert(u[k + 1] == w[0]);
        } else {
            assert(u[k] == w[k - n - m]);
            assert(lower_word_char(w[k - n - m]));
        }
    }
}

/// Normalizes a name or query for search: quotes are dropped, every maximal run of
/// alphanumeric characters becomes a lowercase word, and words are separated by
/// single spaces.
pub fn normalize(s: &str) -> (out: String)
    ensures
        out@ == normalize_spec(s@),
        normal_form(out@),
{
    let chars = chars_of(s);
    let mut out = String::new();
    let mut needs_space = false;
    let ghost p = alphanumeric();
    for i in 0..chars.len()
        invariant
            chars@ == s@,
            p == alphanumeric(),
            out@ == join_with(
                lowercase_words(runs(strip_quotes(chars@.take(i as int)), p)),
                seq![' '],
            ),
            normal_form(out@),
            (out@.len() > 0) == (runs(strip_quotes(chars@.take(i as int)), p).len() > 0),
            needs_space == (runs(strip_quotes(chars@.take(i as int)), p).len() > 0
                && strip_quotes(chars@.take(i as int)).len() > 0 && !char_is_alphanumeric(
                strip_quotes(chars@.take(i as int)).last(),
            )),
    {
        let c = chars[i];
        let ghost f = strip_quotes(chars@.take(i as int));
        let ghost toks = runs(f, p);
        assert(chars@.take(i + 1).drop_last() =~= chars@.take(i as int));
        assert(chars@.take(i + 1).last() == c);
        if is_quote(c) {
            assert(strip_quotes(chars@.take(i + 1)) == f);
        } else {
            let ghost f2 = f.push(c);
            assert(strip_quotes(chars@.take(i + 1)) == f2);
            assert(f2.drop_last() =~= f);
            if is_alphanumeric(c) {
                let ghost before = out@;
                let spaced = needs_space && !out.as_str().is_empty();
                if spaced {
                    push_char(&mut out, ' ');
                }
                let lower = to_lowercase(c);
                push_chars(&mut out, &lower);
                needs_space = false;
                proof {
                    let sep = if spaced { seq![' '] } else { Seq::<char>::empty() };
                    assert(out@ =~= before + sep + lower@);
                    if is_ascii_char(c) {
                        assert(lower@ == seq![crate::chars::ascii_lower(c)]);
                        assert(lower_word_char(lower@[0]));
                    }
                    lemma_normal_form_append(before, sep, lower@);
                }
                proof {
                    let lw = lowercase_words(toks);
                    if f.len() > 0 && char_is_alphanumeric(f.last()) {
                        lemma_runs_nonempty(f, p);
                        let w = toks.last();
                        assert(runs(f2, p) == toks.drop_last().push(w.push(c)));
                        assert(w.push(c).drop_last() =~= w);
                        assert(lowercase_word(w.push(c)) == lowercase_word(w) + lower@);
                        assert(lowercase_words(toks.drop_last().push(w.push(c))) =~= lw.drop_last().push(
                            lw.last() + lower@,
                        ));
                        lemma_join_extend_last(lw, seq![' '], lower@);
                    } else {
                        assert(runs(f2, p) == toks.push(seq![c]));
                        assert(seq![c].drop_last() =~= Seq::<char>::empty());
                        assert(lowercase_word(seq![c].drop_last()) =~= Seq::<char>::empty());
                        assert(seq![c].last() == c);
                        assert(lowercase_word(seq![c]) =~= lower@);
                        assert(lowercase_words(toks.push(seq![c])) =~= lw.push(lower@));
                        lemma_join_push(lw, seq![' '], lower@);
                    }
                }
            } else {
                assert(runs(f2, p) == toks);
                if !out.as_str().is_empty() {
                    needs_space = true;
                }
            }
        }
    }
    assert(chars@.take(chars.len() as int) =~= s@);
    out
}


/// Whether `c` is punctuation that `process_line` attaches to the preceding word.
pub open spec fn is_closing_punct(c: char) -> bool {
    c == '.' || c == ',' || c == '!' || c == '?' || c == ':' || c == ';' || c == ')' || c == ']'
        || c == '}'
}

/// The text `process_line` has produced after reading `s`, and whether a whitespace
/// run is pending. A pending run becomes one space before the next character unless
/// nothing has been produced yet or that character is closing punctuation. A pending
/// run before the first character stays pending until a second character follows.
pub open spec fn process_line_state(s: Seq<char>) -> (Seq<char>, bool)
    decreases s.len(),
{
    if s.len() == 0 {
        (seq![], false)
    } else {
        let (out, pending) = process_line_state(s.drop_last());
        let c = s.last();
        if char_is_whitespace(c) {
            (out, true)
        } else if pending && out.len() > 0 && is_closing_punct(c) {
            (out.push(c), false)
        } else if pending && out.len() > 0 {
            (out.push(' ').push(c), false)
        } else {
            (out.push(c), pending)
        }
    }
}

/// The text that `process_line` makes of `s`.
pub open spec fn process_line_spec(s: Seq<char>) -> Seq<char> {
    process_line_state(s).0
}

/// Whether `c` is closing punctuation (see `is_closing_punct`).
pub fn closing_punct(c: char) -> (r: bool)
    ensures
        r == is_closing_punct(c),
{
    c == '.' || c == ',' || c == '!' || c == '?' || c == ':' || c == ';' || c == ')' || c == ']'
        || c == '}'
}

/// `process_line` on a line given as characters.
pub fn process_line_chars(line: &Vec<char>) -> (out: String)
    ensures
        out@ == process_line_spec(line@),
{
    let mut out = String::new();
    let mut pending_space = false;
    for i in 0..line.len()
        invariant
            (out@, pending_space) == process_line_state(line@.take(i as int)),
    {
        let c = line[i];
        assert(line@.take(i + 1).drop_last() =~= line@.take(i as int));
        assert(line@.take(i + 1).last() == c);
        if is_whitespace(c) {
            pending_space = true;
        } else {
            if pending_space && !out.as_str().is_empty() && closing_punct(c) {
                pending_space = false;
            } else if pending_space && !out.as_str().is_empty() {
                push_char(&mut out, ' ');
                pending_space = false;
            }
            push_char(&mut out, c);
        }
    }
    assert(line@.take(line.len() as int) =~= line@);
    out
}

/// Collapses the whitespace of a line: a whitespace run between two words becomes one
/// space, none before closing punctuation, and none is kept at the end. Whitespace at
/// the start is dropped, but it stays pending past the first word character: it becomes
/// a space before the next one unless that is closing punctuation (so "  ab" gives
/// "a b").
pub fn process_line(line: &str) -> (out: String)
    ensures
        out@ == process_line_spec(line@),
{
    process_line_chars(&chars_of(line))
}

/// How many times `w` occurs in `ws`.
pub open spec fn occurrences(ws: Seq<Seq<char>>, w: Seq<char>) -> nat
    decreases ws.len(),
{
    if ws.len() == 0 {
        0
    } else {
        occurrences(ws.drop_last(), w) + if ws.last() == w {
            1nat
        } else {
            0nat
        }
    }
}

/// A word occurs no more often than the list is long.
pub proof fn lemma_occurrences_bound(ws: Seq<Seq<char>>, w: Seq<char>)
    ensures
        occurrences(ws, w) <= ws.len(),
    decreases ws.len(),
{
    if ws.len() > 0 {
        lemma_occurrences_bound(ws.drop_last(), w);
    }
}

/// A text has no more runs than characters.
pub proof fn lemma_runs_bound(s: Seq<char>, p: spec_fn(char) -> bool)
    ensures
        runs(s, p).len() <= s.len(),
    decreases s.len(),
{
    if s.len() > 0 {
        lemma_runs_bound(s.drop_last(), p);
        if p(s.last()) && s.len() >= 2 && p(s[s.len() - 2]) {
            lemma_runs_nonempty(s.drop_last(), p);
        }
    }
}

/// How many times each word occurs in a text, as `word_counts` counts them: a map from
/// each counted word to its count. Beside the map it keeps the counted words, each once,
/// which `contains_all` walks while it looks each word up in the other count; the answer
/// does not depend on their order.
pub struct WordCounts {
    counts: StringHashMap<usize>,
    words: Vec<String>,
}

impl WordCounts {
    /// The number of times `w` was counted (0 for a word never counted).
    pub closed spec fn count(&self, w: Seq<char>) -> nat {
        if self.counts@.contains_key(w) {
            self.counts@[w] as nat
        } else {
            0
        }
    }

    /// The words are those of the map, each once, and every count is positive.
    #[verifier::type_invariant]
    closed spec fn wf(&self) -> bool {
        &&& forall|i: int, j: int|
            0 <= i < j < self.words@.len() ==> self.words@[i]@ != self.words@[j]@
        &&& forall|i: int| 0 <= i < self.words@.len() ==> self.counts@.contains_key(#[trigger] self.words@[i]@)
        &&& forall|w: Seq<char>|
            #[trigger] self.counts@.contains_key(w) ==> exists|i: int|
                0 <= i < self.words@.len() && self.words@[i]@ == w
        &&& forall|w: Seq<char>| #[trigger] self.counts@.contains_key(w) ==> self.counts@[w] > 0
    }

    /// No word counted yet.
    pub fn new() -> (r: WordCounts)
        ensures
            forall|w: Seq<char>| r.count(w) == 0,
    {
        WordCounts { counts: StringHashMap::new(), words: Vec::new() }
    }

    /// Counts one more occurrence of `w`.
    pub fn add(&mut self, w: String)
        requires
            old(self).count(w@) < usize::MAX,
        ensures
            forall|x: Seq<char>| #[trigger]
                final(self).count(x) == old(self).count(x) + if x == w@ {
                    1nat
                } else {
                    0nat
                },
    {
        proof {
            use_type_invariant(&*self);
        }
        let mut taken = WordCounts::new();
        std::mem::swap(self, &mut taken);
        proof {
            use_type_invariant(&taken);
        }
        let ghost before = taken;
        let WordCounts { mut counts, mut words } = taken;
        assert(counts@ == before.counts@ && words@ == before.words@);
        let ghost wv = w@;
        match counts.get(w.as_str()) {
            Some(n) => {
                let n = *n;
                counts.insert(w, n + 1);
                assert forall|i: int| 0 <= i < words@.len() implies counts@.contains_key(
                    #[trigger] words@[i]@,
                ) by {
                    assert(before.counts@.contains_key(before.words@[i]@));
                }
                assert forall|v: Seq<char>| #[trigger] counts@.contains_key(v) implies counts@[v]
                    > 0 by {
                    if v != wv {
                        assert(before.counts@.contains_key(v));
                    }
                }
                assert forall|v: Seq<char>| #[trigger] counts@.contains_key(v) implies exists|i: int|
                    0 <= i < words@.len() && words@[i]@ == v by {
                    assert(before.counts@.contains_key(v));
                }
            },
            None => {
                let key = w.clone();
                words.push(key);
                counts.insert(w, 1);
                assert forall|i: int, j: int| 0 <= i < j < words@.len() implies words@[i]@
                    != words@[j]@ by {
                    if j == words@.len() - 1 {
                        assert(words@[i] == before.words@[i]);
                        assert(before.counts@.contains_key(before.words@[i]@));
                    } else {
                        assert(words@[i] == before.words@[i]);
                        assert(words@[j] == before.words@[j]);
                    }
                }
                assert forall|i: int| 0 <= i < words@.len() implies counts@.contains_key(
                    #[trigger] words@[i]@,
                ) by {
                    if i < words@.len() - 1 {
                        assert(words@[i] == before.words@[i]);
                        assert(before.counts@.contains_key(before.words@[i]@));
                    }
                }
                assert forall|v: Seq<char>| #[trigger] counts@.contains_key(v) implies counts@[v]
                    > 0 by {
                    if v != wv {
                        assert(before.counts@.contains_key(v));
                    }
                }
                assert forall|v: Seq<char>| #[trigger] counts@.contains_key(v) implies exists|i: int|
                    0 <= i < words@.len() && words@[i]@ == v by {
                    if v == wv {
                        assert(words@[words@.len() - 1]@ == v);
                    } else {
                        assert(before.counts@.contains_key(v));
                        let i = choose|i: int|
                            0 <= i < before.words@.len() && before.words@[i]@ == v;
                        assert(words@[i] == before.words@[i]);
                    }
                }
            },
        }
        let ghost cand = WordCounts { counts: counts, words: words };
        assert(cand.counts@ == counts@ && cand.words@ == words@);
        *self = WordCounts { counts, words };
    }

    /// The count of `word`, or `None` where it was never counted.
    pub fn get(&self, word: &str) -> (r: Option<usize>)
        ensures
            match r {
                Some(n) => n == self.count(word@) && n > 0,
                None => self.count(word@) == 0,
            },
    {
        proof {
            use_type_invariant(self);
        }
        match self.counts.get(word) {
            Some(n) => Some(*n),
            None => None,
        }
    }

    /// Whether every word of `required` was counted here at least as often as there.
    pub fn contains_all(&self, required: &WordCounts) -> (r: bool)
        ensures
            r == forall|w: Seq<char>| required.count(w) <= self.count(w),
    {
        proof {
            use_type_invariant(self);
            use_type_invariant(required);
        }
        for j in 0..required.words.len()
            invariant
                required.wf(),
                forall|a: int|
                    0 <= a < j ==> required.count(#[trigger] required.words@[a]@) <= self.count(
                        required.words@[a]@,
                    ),
        {
            let key = required.words[j].as_str();
            let need = match required.get(key) {
                Some(n) => n,
                None => 0,
            };
            let have = match self.get(key) {
                Some(n) => n,
                None => 0,
            };
            if have < need {
                return false;
            }
        }
        assert forall|w: Seq<char>| required.count(w) <= self.count(w) by {
            if required.counts@.contains_key(w) {
                let a = choose|a: int| 0 <= a < required.words@.len() && required.words@[a]@ == w;
                assert(required.count(required.words@[a]@) <= self.count(required.words@[a]@));
            }
        }
        true
    }
}

/// Counts how often each whitespace-separated word occurs in `s`.
pub fn word_counts(s: &str) -> (r: WordCounts)
    ensures
        forall|w: Seq<char>| #[trigger] r.count(w) == occurrences(words(s@), w),
{
    let chars = chars_of(s);
    let mut counts = WordCounts::new();
    let mut cur = String::new();
    let mut in_word = false;
    for i in 0..chars.len()
        invariant
            chars@ == s@,
            in_word == (i > 0 && !char_is_whitespace(chars@[i - 1])),
            in_word ==> words(chars@.take(i as int)).len() > 0 && cur@ == words(
                chars@.take(i as int),
            ).last(),
            forall|w: Seq<char>| #[trigger]
                counts.count(w) == occurrences(
                    if in_word {
                        words(chars@.take(i as int)).drop_last()
                    } else {
                        words(chars@.take(i as int))
                    },
                    w,
                ),
    {
        let c = chars[i];
        let ghost t = chars@.take(i as int);
        let ghost t2 = chars@.take(i + 1);
        let ghost ws = words(t);
        assert(t2.drop_last() =~= t);
        assert(t2.last() == c);
        proof {
            lemma_runs_bound(t, |c: char| !char_is_whitespace(c));
        }
        if is_whitespace(c) {
            assert(words(t2) == ws);
            if in_word {
                let ghost counted = ws.drop_last();
                assert(counted.push(cur@) =~= ws);
                proof {
                    lemma_occurrences_bound(counted, cur@);
                }
                let word = cur;
                counts.add(word);
                cur = String::new();
                assert forall|w: Seq<char>| #[trigger]
                    counts.count(w) == occurrences(ws, w) by {
                    assert(ws.drop_last() =~= counted);
                }
                in_word = false;
            }
        } else {
            if in_word {
                assert(words(t2) == ws.drop_last().push(ws.last().push(c)));
                assert(words(t2).drop_last() =~= ws.drop_last());
            } else {
                assert(words(t2) == ws.push(seq![c]));
                assert(words(t2).drop_last() =~= ws);
                cur = String::new();
            }
            push_char(&mut cur, c);
            in_word = true;
        }
    }
    let ghost ws = words(chars@.take(chars.len() as int));
    assert(chars@.take(chars.len() as int) =~= s@);
    if in_word {
        proof {
            lemma_runs_bound(chars@.take(chars.len() as int), |c: char| !char_is_whitespace(c));
            lemma_occurrences_bound(ws.drop_last(), cur@);
        }
        counts.add(cur);
        assert forall|w: Seq<char>| #[trigger] counts.count(w) == occurrences(ws, w) by {
            assert(ws.drop_last().push(ws.last()) =~= ws);
        }
    }
    counts
}

} // verus!
