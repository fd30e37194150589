//! Frequency counting: how often each number occurs in a list, and how
//! often each word occurs in a sentence (case-folded, punctuation treated
//! as blank space, sorted by falling frequency).
//!
//! A count is a `u32` that saturates at `u32::MAX` instead of overflowing;
//! the contracts say exactly when that cap is reached.

use vstd::prelude::*;
use vstd::seq_lib::group_to_multiset_ensures;

verus! {

/// A frequency tally clipped to what a `u32` can hold.
pub open spec fn clip_count(c: int) -> u32
    recommends
        c >= 0,
{
    if c <= u32::MAX {
        c as u32
    } else {
        u32::MAX
    }
}

/// How often `x` occurs among the first `u` entries of `s`.
pub open spec fn count_val<A>(s: Seq<A>, x: A, u: int) -> int
    decreases u,
{
    if u <= 0 {
        0
    } else {
        count_val(s, x, u - 1) + if s[u - 1] == x {
            1int
        } else {
            0int
        }
    }
}

/// The distinct values among the first `u` entries of `s`, each in the
/// position of its first occurrence.
pub open spec fn distinct_vals<A>(s: Seq<A>, u: int) -> Seq<A>
    decreases u,
{
    if u <= 0 {
        Seq::empty()
    } else {
        let prev = distinct_vals(s, u - 1);
        if prev.contains(s[u - 1]) {
            prev
        } else {
            prev.push(s[u - 1])
        }
    }
}

/// A count lies between 0 and the length of the counted prefix.
proof fn lemma_count_val_bounds<A>(s: Seq<A>, x: A, u: int)
    ensures
        0 <= count_val(s, x, u),
        u >= 0 ==> count_val(s, x, u) <= u,
    decreases u,
{
    if u > 0 {
        lemma_count_val_bounds(s, x, u - 1);
    }
}

/// A value occurs in a prefix exactly when the distinct list holds it.
proof fn lemma_count_pos_iff_distinct_contains<A>(s: Seq<A>, x: A, u: int)
    ensures
        count_val(s, x, u) > 0 <==> distinct_vals(s, u).contains(x),
    decreases u,
{
    if u > 0 {
        lemma_count_pos_iff_distinct_contains(s, x, u - 1);
        lemma_count_val_bounds(s, x, u - 1);
        let prev = distinct_vals(s, u - 1);
        if !prev.contains(s[u - 1]) {
            assert(distinct_vals(s, u) == prev.push(s[u - 1]));
            let pushed = prev.push(s[u - 1]);
            assert(pushed.contains(x) <==> (prev.contains(x) || s[u - 1] == x)) by {
                if pushed.contains(x) {
                    let i = choose|i: int| 0 <= i < pushed.len() && pushed[i] == x;
                    if i < prev.len() {
                        assert(prev[i] == x);
                        assert(prev.contains(x));
                    }
                }
                if prev.contains(x) {
                    let w = choose|w: int| 0 <= w < prev.len() && prev[w] == x;
                    assert(pushed[w] == x);
                    assert(pushed.contains(x));
                }
                if s[u - 1] == x {
                    assert(pushed[prev.len() as int] == x);
                    assert(pushed.contains(x));
                }
            }
        }
    }
}

/// Every entry of a prefix shows up in that prefix's distinct list.
proof fn lemma_distinct_covers<A>(s: Seq<A>, i: int, u: int)
    requires
        0 <= i < u,
    ensures
        distinct_vals(s, u).contains(s[i]),
    decreases u,
{
    let prev = distinct_vals(s, u - 1);
    if i == u - 1 {
        if !prev.contains(s[u - 1]) {
            assert(prev.push(s[u - 1])[prev.len() as int] == s[u - 1]);
        }
    } else {
        lemma_distinct_covers(s, i, u - 1);
        if !prev.contains(s[u - 1]) {
            let w = choose|t: int| 0 <= t < prev.len() && prev[t] == s[i];
            assert(prev.push(s[u - 1])[w] == s[i]);
        }
    }
}

/// Relies on char::is_alphanumeric: a fixed classification of one
/// character by the Unicode tables, named here as a spec-level predicate.
pub uninterp spec fn char_is_alphanumeric(c: char) -> bool;

#[verifier::external_body]
fn is_alphanumeric_char(c: char) -> (r: bool)
    ensures
        r == char_is_alphanumeric(c),
{
    c.is_alphanumeric()
}

/// Relies on char::is_whitespace: a fixed classification of one character
/// by the Unicode tables, named here as a spec-level predicate.
pub uninterp spec fn char_is_whitespace(c: char) -> bool;

#[verifier::external_body]
fn is_whitespace_char(c: char) -> (r: bool)
    ensures
        r == char_is_whitespace(c),
{
    c.is_whitespace()
}

/// Relies on str::to_lowercase: the Unicode lowercase mapping of a string,
/// a function of its characters alone, named `lower_of`.
pub uninterp spec fn lower_of(s: Seq<char>) -> Seq<char>;

#[verifier::external_body]
fn to_lowercase_str(s: &str) -> (r: String)
    ensures
        r@ == lower_of(s@),
{
    s.to_lowercase()
}

/// Relies on String::push: appends exactly one character.
#[verifier::external_body]
fn push_char(s: &mut String, c: char)
    ensures
        final(s)@ == old(s)@.push(c),
{
    s.push(c);
}

/// What one character becomes when punctuation is blanked out: kept if it
/// is alphanumeric or whitespace, a space otherwise.
pub open spec fn punct_to_space(c: char) -> char {
    if char_is_alphanumeric(c) || char_is_whitespace(c) {
        c
    } else {
        ' '
    }
}

/// Replace every character that is neither alphanumeric nor whitespace by
/// a space, character for character.
pub fn replace_punctuation_with_space(input: &str) -> (r: String)
    ensures
        r@.len() == input@.len(),
        forall|i: int| 0 <= i < input@.len() ==> r@[i] == punct_to_space(input@[i]),
{
    let n = input.unicode_len();
    let mut out = String::new();
    let mut i: usize = 0;
    while i < n
        invariant
            i <= n,
            n == input@.len(),
            out@.len() == i,
            forall|t: int| 0 <= t < i ==> out@[t] == punct_to_space(input@[t]),
        decreases n - i,
    {
        let c = input.get_char(i);
        let kept = if is_alphanumeric_char(c) || is_whitespace_char(c) {
            c
        } else {
            ' '
        };
        push_char(&mut out, kept);
        i += 1;
    }
    out
}

/// Position of `x` among the keys of the tally, if it is there.
fn find_num(r: &Vec<(i32, u32)>, x: i32) -> (res: Option<usize>)
    ensures
        match res {
            Some(idx) => idx < r@.len() && r@[idx as int].0 == x,
            None => forall|a: int| 0 <= a < r@.len() ==> r@[a].0 != x,
        },
{
    let mut a: usize = 0;
    while a < r.len()
        invariant
            a <= r@.len(),
            forall|t: int| 0 <= t < a ==> r@[t].0 != x,
        decreases r@.len() - a,
    {
        if r[a].0 == x {
            return Some(a);
        }
        a += 1;
    }
    None
}

/// Tally how often each number occurs: one pair per distinct number, in
/// order of first occurrence, its count clipped at `u32::MAX`.
pub fn logic(numbers: Vec<i32>) -> (r: Vec<(i32, u32)>)
    ensures
        r@.len() == distinct_vals(numbers@, numbers@.len() as int).len(),
        forall|a: int|
            0 <= a < r@.len() ==> r@[a].0 == distinct_vals(numbers@, numbers@.len() as int)[a],
        forall|a: int|
            0 <= a < r@.len() ==> r@[a].1 == clip_count(
                count_val(numbers@, r@[a].0, numbers@.len() as int),
            ),
{
    let s = numbers;
    let mut r: Vec<(i32, u32)> = Vec::new();
    let mut u: usize = 0;
    while u < s.len()
        invariant
            u <= s@.len(),
            r@.len() == distinct_vals(s@, u as int).len(),
            forall|a: int| 0 <= a < r@.len() ==> r@[a].0 == distinct_vals(s@, u as int)[a],
            forall|a: int|
                0 <= a < r@.len() ==> r@[a].1 == clip_count(count_val(s@, r@[a].0, u as int)),
        decreases s@.len() - u,
    {
        let x = s[u];
        let ghost d_prev = distinct_vals(s@, u as int);
        match find_num(&r, x) {
            Some(idx) => {
                proof {
                    assert(d_prev[idx as int] == x);
                    assert(d_prev.contains(x));
                    assert(distinct_vals(s@, u as int + 1) == d_prev);
                    lemma_count_val_bounds(s@, x, u as int);
                }
                let c = r[idx].1;
                let c2 = if c < u32::MAX {
                    c + 1
                } else {
                    c
                };
                r[idx].1 = c2;
                proof {
                    assert forall|a: int| 0 <= a < r@.len() implies r@[a].1 == clip_count(
                        count_val(s@, r@[a].0, u as int + 1),
                    ) by {
                        if a != idx {
                            assert(d_prev[a] != x) by {
                                lemma_distinct_nodup(s@, u as int);
                            }
                            assert(count_val(s@, r@[a].0, u as int + 1) == count_val(
                                s@,
                                r@[a].0,
                                u as int,
                            ));
                        }
                    }
                }
            },
            None => {
                proof {
                    assert(!d_prev.contains(x)) by {
                        if d_prev.contains(x) {
                            let w = choose|t: int| 0 <= t < d_prev.len() && d_prev[t] == x;
                            assert(r@[w].0 == x);
                        }
                    }
                    assert(distinct_vals(s@, u as int + 1) == d_prev.push(x));
                    lemma_count_pos_iff_distinct_contains(s@, x, u as int);
                    lemma_count_val_bounds(s@, x, u as int);
                    assert(count_val(s@, x, u as int + 1) == 1);
                }
                r.push((x, 1));
                proof {
                    assert forall|a: int| 0 <= a < r@.len() implies r@[a].1 == clip_count(
                        count_val(s@, r@[a].0, u as int + 1),
                    ) by {
                        if a < r@.len() - 1 {
                            assert(d_prev[a] != x) by {
                                if d_prev[a] == x {
                                    assert(d_prev.contains(x));
                                }
                            }
                            assert(count_val(s@, r@[a].0, u as int + 1) == count_val(
                                s@,
                                r@[a].0,
                                u as int,
                            ));
                        }
                    }
                }
            },
        }
        u += 1;
    }
    r
}

/// One character's effect on a running split: whitespace closes the word
/// being built, if any; any other character extends it.
pub open spec fn split_step(acc: (Seq<Seq<char>>, Seq<char>), c: char) -> (Seq<Seq<char>>, Seq<
    char,
>) {
    if char_is_whitespace(c) {
        if acc.1.len() > 0 {
            (acc.0.push(acc.1), Seq::empty())
        } else {
            acc
        }
    } else {
        (acc.0, acc.1.push(c))
    }
}

/// The split state — words closed so far, word still being built — after
/// reading the first `u` characters of `s`.
pub open spec fn split_fold(s: Seq<char>, u: int) -> (Seq<Seq<char>>, Seq<char>)
    decreases u,
{
    if u <= 0 {
        (Seq::empty(), Seq::empty())
    } else {
        split_step(split_fold(s, u - 1), s[u - 1])
    }
}

/// The whitespace-separated words of `s`, in order.
pub open spec fn words_of(s: Seq<char>) -> Seq<Seq<char>> {
    let st = split_fold(s, s.len() as int);
    if st.1.len() > 0 {
        st.0.push(st.1)
    } else {
        st.0
    }
}

/// The character stream the sentence logic counts over: the sentence
/// lowercased, then punctuation blanked out.
pub open spec fn cleaned_of(s: Seq<char>) -> Seq<char> {
    Seq::new(lower_of(s).len(), |i: int| punct_to_space(lower_of(s)[i]))
}

/// The words the sentence logic counts.
pub open spec fn sentence_words(s: Seq<char>) -> Seq<Seq<char>> {
    words_of(cleaned_of(s))
}

/// The views of a vector of owned words.
pub open spec fn word_views(ws: Seq<String>) -> Seq<Seq<char>> {
    Seq::new(ws.len(), |i: int| ws[i]@)
}

/// Split a string at whitespace into its words, in order.
fn split_words(cleaned: &str) -> (words: Vec<String>)
    ensures
        words@.len() == words_of(cleaned@).len(),
        forall|a: int| 0 <= a < words@.len() ==> words@[a]@ == words_of(cleaned@)[a],
{
    let n = cleaned.unicode_len();
    let mut words: Vec<String> = Vec::new();
    let mut cur = String::new();
    let mut i: usize = 0;
    while i < n
        invariant
            i <= n,
            n == cleaned@.len(),
            words@.len() == split_fold(cleaned@, i as int).0.len(),
            forall|a: int|
                0 <= a < words@.len() ==> words@[a]@ == split_fold(cleaned@, i as int).0[a],
            cur@ == split_fold(cleaned@, i as int).1,
        decreases n - i,
    {
        let c = cleaned.get_char(i);
        if is_whitespace_char(c) {
            if !cur.as_str().is_empty() {
                words.push(cur);
                cur = String::new();
            }
        } else {
            push_char(&mut cur, c);
        }
        i += 1;
    }
    if !cur.as_str().is_empty() {
        words.push(cur);
    }
    words
}

/// Position of the word `w` among the keys of the tally, if it is there.
fn find_word(r: &Vec<(String, u32)>, w: &String) -> (res: Option<usize>)
    ensures
        match res {
            Some(idx) => idx < r@.len() && r@[idx as int].0@ == w@,
            None => forall|a: int| 0 <= a < r@.len() ==> r@[a].0@ != w@,
        },
{
    let mut a: usize = 0;
    while a < r.len()
        invariant
            a <= r@.len(),
            forall|t: int| 0 <= t < a ==> r@[t].0@ != w@,
        decreases r@.len() - a,
    {
        if r[a].0 == *w {
            return Some(a);
        }
        a += 1;
    }
    None
}

/// Tally how often each word occurs: one pair per distinct word, in order
/// of first occurrence, its count clipped at `u32::MAX`.
fn count_words(words: Vec<String>) -> (r: Vec<(String, u32)>)
    ensures
        r@.len() == distinct_vals(word_views(words@), words@.len() as int).len(),
        forall|a: int|
            0 <= a < r@.len() ==> r@[a].0@ == distinct_vals(
                word_views(words@),
                words@.len() as int,
            )[a],
        forall|a: int|
            0 <= a < r@.len() ==> r@[a].1 == clip_count(
                count_val(word_views(words@), r@[a].0@, words@.len() as int),
            ),
{
    let ghost ws = word_views(words@);
    let mut r: Vec<(String, u32)> = Vec::new();
    let mut u: usize = 0;
    while u < words.len()
        invariant
            u <= words@.len(),
            ws == word_views(words@),
            ws.len() == words@.len(),
            r@.len() == distinct_vals(ws, u as int).len(),
            forall|a: int| 0 <= a < r@.len() ==> r@[a].0@ == distinct_vals(ws, u as int)[a],
            forall|a: int|
                0 <= a < r@.len() ==> r@[a].1 == clip_count(count_val(ws, r@[a].0@, u as int)),
        decreases words@.len() - u,
    {
        let w = words[u].clone();
        proof {
            assert(ws[u as int] == w@);
        }
        let ghost d_prev = distinct_vals(ws, u as int);
        match find_word(&r, &w) {
            Some(idx) => {
                proof {
                    assert(d_prev[idx as int] == w@);
                    assert(d_prev.contains(w@));
                    assert(distinct_vals(ws, u as int + 1) == d_prev);
                    lemma_count_val_bounds(ws, w@, u as int);
                }
                let c = r[idx].1;
                let c2 = if c < u32::MAX {
                    c + 1
                } else {
                    c
                };
                r[idx].1 = c2;
                proof {
                    assert forall|a: int| 0 <= a < r@.len() implies r@[a].1 == clip_count(
                        count_val(ws, r@[a].0@, u as int + 1),
                    ) by {
                        if a != idx {
                            assert(d_prev[a] != w@) by {
                                lemma_distinct_nodup(ws, u as int);
                            }
                            assert(count_val(ws, r@[a].0@, u as int + 1) == count_val(
                                ws,
                                r@[a].0@,
                                u as int,
                            ));
                        }
                    }
                }
            },
            None => {
                proof {
                    assert(!d_prev.contains(w@)) by {
                        if d_prev.contains(w@) {
                            let t = choose|t: int| 0 <= t < d_prev.len() && d_prev[t] == w@;
                            assert(r@[t].0@ == w@);
                        }
                    }
                    assert(distinct_vals(ws, u as int + 1) == d_prev.push(w@));
                    lemma_count_pos_iff_distinct_contains(ws, w@, u as int);
                    lemma_count_val_bounds(ws, w@, u as int);
                    assert(count_val(ws, w@, u as int + 1) == 1);
                }
                r.push((w, 1));
                proof {
                    assert forall|a: int| 0 <= a < r@.len() implies r@[a].1 == clip_count(
                        count_val(ws, r@[a].0@, u as int + 1),
                    ) by {
                        if a < r@.len() - 1 {
                            assert(d_prev[a] != w@) by {
                                if d_prev[a] == w@ {
                                    assert(d_prev.contains(w@));
                                }
                            }
                            assert(count_val(ws, r@[a].0@, u as int + 1) == count_val(
                                ws,
                                r@[a].0@,
                                u as int,
                            ));
                        }
                    }
                }
            },
        }
        u += 1;
    }
    r
}

/// Sort tallies by falling count, picking the earliest maximum first, so
/// ties keep their first-seen order.
fn sort_by_count_desc(v: Vec<(String, u32)>) -> (r: Vec<(String, u32)>)
    ensures
        r@.to_multiset() == v@.to_multiset(),
        r@.len() == v@.len(),
        forall|a: int, b: int| 0 <= a <= b < r@.len() ==> r@[a].1 >= r@[b].1,
{
    broadcast use group_to_multiset_ensures;
    broadcast use vstd::multiset::group_multiset_axioms;

    let ghost orig = v@;
    let mut v = v;
    let mut out: Vec<(String, u32)> = Vec::new();
    while v.len() > 0
        invariant
            out@.to_multiset().add(v@.to_multiset()) == orig.to_multiset(),
            out@.len() + v@.len() == orig.len(),
            forall|a: int, b: int| 0 <= a <= b < out@.len() ==> out@[a].1 >= out@[b].1,
            forall|a: int, b: int|
                0 <= a < out@.len() && 0 <= b < v@.len() ==> out@[a].1 >= v@[b].1,
        decreases v@.len(),
    {
        let mut best: usize = 0;
        let mut m: usize = 1;
        while m < v.len()
            invariant
                best < v@.len(),
                m <= v@.len(),
                v@.len() > 0,
                forall|t: int| 0 <= t < m ==> v@[t].1 <= v@[best as int].1,
            decreases v@.len() - m,
        {
            if v[m].1 > v[best].1 {
                best = m;
            }
            m += 1;
        }
        let ghost v_old = v@;
        let ghost out_old = out@;
        let item = v.remove(best);
        out.push(item);
        proof {
            v_old.to_multiset_ensures();
            out_old.to_multiset_ensures();
            assert(v_old.contains(item)) by {
                assert(v_old[best as int] == item);
            }
            assert(v_old.to_multiset().count(item) > 0);
            assert(out@ == out_old.push(item));
            assert(out_old.push(item).to_multiset() =~= out_old.to_multiset().insert(item));
            assert(v@ == v_old.remove(best as int));
            assert(v_old.remove(best as int).to_multiset() =~= v_old.to_multiset().remove(item));
            assert(out@.to_multiset().add(v@.to_multiset()) =~= orig.to_multiset()) by {
                assert forall|x: (String, u32)|
                    out@.to_multiset().count(x) + v@.to_multiset().count(x)
                        == orig.to_multiset().count(x) by {
                    assert(out_old.to_multiset().count(x) + v_old.to_multiset().count(x)
                        == orig.to_multiset().count(x));
                }
            }
            assert forall|a: int, b: int|
                0 <= a < out@.len() && 0 <= b < v@.len() implies out@[a].1 >= v@[b].1 by {
                assert(v@[b] == v_old.remove(best as int)[b]);
            }
        }
    }
    out
}

/// Every element of one ordering of a multiset occurs in any other.
proof fn lemma_perm_elements<A>(pre: Seq<A>, post: Seq<A>)
    requires
        post.to_multiset() == pre.to_multiset(),
    ensures
        post.len() == pre.len(),
        forall|a: int| 0 <= a < post.len() ==> pre.contains(#[trigger] post[a]),
        forall|b: int| 0 <= b < pre.len() ==> post.contains(#[trigger] pre[b]),
{
    pre.to_multiset_ensures();
    post.to_multiset_ensures();
    assert(post.to_multiset().len() == post.len());
    assert(pre.to_multiset().len() == pre.len());
    assert forall|a: int| 0 <= a < post.len() implies pre.contains(#[trigger] post[a]) by {
        assert(post.contains(post[a]));
        assert(post.to_multiset().count(post[a]) > 0);
        assert(pre.to_multiset().count(post[a]) > 0);
    }
    assert forall|b: int| 0 <= b < pre.len() implies post.contains(#[trigger] pre[b]) by {
        assert(pre.contains(pre[b]));
        assert(pre.to_multiset().count(pre[b]) > 0);
        assert(post.to_multiset().count(pre[b]) > 0);
    }
}

/// Count how often each word occurs in a sentence, comparing words after
/// Unicode lowercasing and with punctuation read as blank space. One pair
/// per distinct word, counts clipped at `u32::MAX`, sorted by falling
/// count; every word of the sentence has exactly one entry.
pub fn logic_sentence(sentence: &str) -> (r: Vec<(String, u32)>)
    ensures
        r@.len() == distinct_vals(
            sentence_words(sentence@),
            sentence_words(sentence@).len() as int,
        ).len(),
        forall|a: int|
            0 <= a < r@.len() ==> (#[trigger] r@[a]).1 == clip_count(
                count_val(sentence_words(sentence@), r@[a].0@, sentence_words(sentence@).len()
                    as int),
            ) && count_val(sentence_words(sentence@), r@[a].0@, sentence_words(sentence@).len()
                as int) >= 1,
        forall|i: int|
            0 <= i < sentence_words(sentence@).len() ==> exists|a: int|
                0 <= a < r@.len() && r@[a].0@ == #[trigger] sentence_words(sentence@)[i],
        forall|a: int, b: int| 0 <= a <= b < r@.len() ==> r@[a].1 >= r@[b].1,
{
    let ghost ws = sentence_words(sentence@);
    let lowered = to_lowercase_str(sentence);
    let cleaned = replace_punctuation_with_space(lowered.as_str());
    proof {
        assert(cleaned@ =~= cleaned_of(sentence@));
    }
    let words = split_words(cleaned.as_str());
    proof {
        assert(word_views(words@) =~= words_of(cleaned@));
        assert(ws == word_views(words@));
        assert(ws.len() == words@.len());
    }
    let counted = count_words(words);
    let ghost n_ws = ws.len() as int;
    proof {
        // every word of the sentence already has its entry in the tally
        assert forall|i: int| 0 <= i < n_ws implies exists|a: int|
            0 <= a < counted@.len() && counted@[a].0@ == #[trigger] ws[i] by {
            lemma_distinct_covers(ws, i, n_ws);
            let t = choose|t: int|
                0 <= t < distinct_vals(ws, n_ws).len() && distinct_vals(ws, n_ws)[t] == ws[i];
            assert(counted@[t].0@ == ws[i]);
        }
        // every tallied count is at least one
        assert forall|a: int| 0 <= a < counted@.len() implies counted@[a].1 == clip_count(
            count_val(ws, counted@[a].0@, n_ws),
        ) && count_val(ws, counted@[a].0@, n_ws) >= 1 by {
            assert(distinct_vals(ws, n_ws).contains(counted@[a].0@)) by {
                assert(distinct_vals(ws, n_ws)[a] == counted@[a].0@);
            }
            lemma_count_pos_iff_distinct_contains(ws, counted@[a].0@, n_ws);
        }
    }
    let r = sort_by_count_desc(counted);
    proof {
        lemma_perm_elements(counted@, r@);
        assert forall|a: int| 0 <= a < r@.len() implies (#[trigger] r@[a]).1 == clip_count(
            count_val(ws, r@[a].0@, n_ws),
        ) && count_val(ws, r@[a].0@, n_ws) >= 1 by {
            assert(counted@.contains(r@[a]));
            let b = choose|b: int| 0 <= b < counted@.len() && counted@[b] == r@[a];
            assert(counted@[b].1 == clip_count(count_val(ws, counted@[b].0@, n_ws)));
        }
        assert forall|i: int| 0 <= i < n_ws implies exists|a: int|
            0 <= a < r@.len() && r@[a].0@ == #[trigger] ws[i] by {
            let b = choose|b: int| 0 <= b < counted@.len() && counted@[b].0@ == ws[i];
            assert(r@.contains(counted@[b]));
            let a = choose|a: int| 0 <= a < r@.len() && r@[a] == counted@[b];
            assert(r@[a].0@ == ws[i]);
        }
    }
    r
}

/// A distinct list never repeats a value.
proof fn lemma_distinct_nodup<A>(s: Seq<A>, u: int)
    ensures
        forall|a: int, b: int|
            #![trigger distinct_vals(s, u)[a], distinct_vals(s, u)[b]]
            0 <= a < b < distinct_vals(s, u).len() ==> distinct_vals(s, u)[a] != distinct_vals(
                s,
                u,
            )[b],
    decreases u,
{
    if u > 0 {
        lemma_distinct_nodup(s, u - 1);
        let prev = distinct_vals(s, u - 1);
        if !prev.contains(s[u - 1]) {
            assert forall|a: int, b: int|
                #![trigger prev.push(s[u - 1])[a], prev.push(s[u - 1])[b]]
                0 <= a < b < prev.push(s[u - 1]).len() implies prev.push(s[u - 1])[a] != prev.push(
                s[u - 1],
            )[b] by {
                if b == prev.len() as int {
                    assert(!prev.contains(prev[a]) ==> false);
                }
            }
        }
    }
}

} // verus!
