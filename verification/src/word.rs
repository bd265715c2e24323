//! Words as they are placed: the raw text and its uppercase letters.

use unicode_normalization::UnicodeNormalization;
use vstd::prelude::*;

use crate::text::chars_of;

verus! {

/// Whether `c` is one of the 52 ASCII letters.
pub open spec fn is_ascii_letter(c: char) -> bool {
    ('a' <= c && c <= 'z') || ('A' <= c && c <= 'Z')
}

/// Whether `c` is one of `A` to `Z`.
pub open spec fn is_upper_letter(c: char) -> bool {
    'A' <= c && c <= 'Z'
}

/// The uppercase form of an ASCII letter; any other character is unchanged.
pub open spec fn upper_of(c: char) -> char {
    if 'a' <= c && c <= 'z' {
        ((c as u32) - 32) as char
    } else {
        c
    }
}

/// Whether every character of `text` is one of `A` to `Z`.
pub open spec fn is_upper_text(text: Seq<char>) -> bool {
    forall|i: int| 0 <= i < text.len() ==> is_upper_letter(#[trigger] text[i])
}

/// Whether every character of `text` is a 7-bit ASCII character.
pub open spec fn is_ascii_text(text: Seq<char>) -> bool {
    forall|i: int| 0 <= i < text.len() ==> (#[trigger] text[i]) <= '\x7f'
}

/// The ASCII letters of `text`, in order, each in uppercase.
pub open spec fn letters_of(text: Seq<char>) -> Seq<char> {
    text.filter(|c: char| is_ascii_letter(c)).map_values(|c: char| upper_of(c))
}

/// The canonical decomposition (Unicode Normalization Form D) of a text
/// that holds a character outside ASCII.
pub uninterp spec fn canonical_decomposition(text: Seq<char>) -> Seq<char>;

/// The canonical decomposition of any text: ASCII text decomposes to itself.
pub open spec fn decomposed(text: Seq<char>) -> Seq<char> {
    if is_ascii_text(text) {
        text
    } else {
        canonical_decomposition(text)
    }
}

/// The placeable form of a raw text: the uppercase ASCII letters that are
/// left of its canonical decomposition.
pub open spec fn normalized_form(text: Seq<char>) -> Seq<char> {
    letters_of(decomposed(text))
}

/// Calls `UnicodeNormalization::nfd` on `input` and collects the characters
/// it yields.
///
/// ASCII characters never decompose and are never reordered, so an ASCII
/// text comes back unchanged; for any other text the result is the named
/// canonical decomposition.
#[verifier::external_body]
fn decompose(input: &str) -> (chars: Vec<char>)
    ensures
        chars@ == if is_ascii_text(input@) {
            input@
        } else {
            canonical_decomposition(input@)
        },
{
    input.nfd().collect()
}

/// Returns the uppercase form of an ASCII letter, and any other character
/// unchanged.
pub fn to_upper(c: char) -> (upper: char)
    ensures
        upper == upper_of(c),
{
    if 'a' <= c && c <= 'z' {
        ((c as u8) - 32u8) as char
    } else {
        c
    }
}

/// A word of the puzzle: the text as given and the letters placed for it.
#[derive(Debug)]
pub struct Word {
    pub original: String,
    pub normalized: String,
}

impl Clone for Word {
    fn clone(&self) -> (copy: Self)
        ensures
            copy == *self,
    {
        Word { original: self.original.clone(), normalized: self.normalized.clone() }
    }
}

impl Word {
    /// The letters placed for this word.
    pub open spec fn letters(&self) -> Seq<char> {
        self.normalized@
    }

    /// A word is well formed when its placed letters are the normalized
    /// form of its original text.
    pub open spec fn wf(&self) -> bool {
        &&& self.normalized@ == normalized_form(self.original@)
        &&& is_upper_text(self.normalized@)
    }

    /// Creates a word from raw text, deriving the letters to place.
    pub fn new(input: &str) -> (word: Self)
        ensures
            word.original@ == input@,
            word.normalized@ == normalized_form(input@),
            word.wf(),
    {
        let original = input.to_owned();
        let normalized = Self::normalize(input);
        Self { original, normalized }
    }

    /// Normalizes a text: canonical decomposition, then only the ASCII
    /// letters, in uppercase.
    pub fn normalize(input: &str) -> (normalized: String)
        ensures
            normalized@ == normalized_form(input@),
            is_upper_text(normalized@),
    {
        let chars = decompose(input);
        Self::uppercase_letters(&chars)
    }

    /// Keeps the ASCII letters of `chars`, in order, each in uppercase.
    pub fn uppercase_letters(chars: &Vec<char>) -> (letters: String)
        ensures
            letters@ == letters_of(chars@),
            is_upper_text(letters@),
    {
        let mut letters = String::new();
        let ghost keep = |c: char| is_ascii_letter(c);
        let ghost raise = |c: char| upper_of(c);
        let mut i: usize = 0;
        while i < chars.len()
            invariant
                i <= chars.len(),
                keep == (|c: char| is_ascii_letter(c)),
                raise == (|c: char| upper_of(c)),
                letters@ == chars@.take(i as int).filter(keep).map_values(raise),
                is_upper_text(letters@),
            decreases chars.len() - i,
        {
            let c = chars[i];
            proof {
                let seen = chars@.take(i as int);
                assert(chars@.take(i + 1) == seen.push(c));
                seen.lemma_filter_push(c, keep);
                if is_ascii_letter(c) {
                    assert(seen.filter(keep).push(c).map_values(raise) == seen.filter(
                        keep,
                    ).map_values(raise).push(upper_of(c)));
                }
            }
            if ('a' <= c && c <= 'z') || ('A' <= c && c <= 'Z') {
                letters.push(to_upper(c));
            }
            i += 1;
        }
        assert(chars@.take(chars.len() as int) == chars@);
        letters
    }

    /// The number of letters placed for this word.
    pub fn len(&self) -> (n: usize)
        ensures
            n == self.letters().len(),
    {
        self.normalized.as_str().unicode_len()
    }

    /// Whether no letter is left to place.
    pub fn is_empty(&self) -> (b: bool)
        ensures
            b == (self.letters().len() == 0),
    {
        self.normalized.as_str().is_empty()
    }

    /// The letters placed for this word, one by one.
    pub fn chars(&self) -> (letters: Vec<char>)
        ensures
            letters@ == self.letters(),
    {
        chars_of(self.normalized.as_str())
    }
}

/// Whether the words run from the longest to the shortest.
pub open spec fn longest_first(words: Seq<Word>) -> bool {
    forall|i: int, j: int|
        0 <= i < j < words.len() ==> words[i].letters().len() >= words[j].letters().len()
}

/// The test that a word has exactly `n` letters.
pub open spec fn has_length(n: nat) -> spec_fn(Word) -> bool {
    |w: Word| w.letters().len() == n
}

/// The words of `words` that have exactly `n` letters, in their order.
pub open spec fn of_length(words: Seq<Word>, n: nat) -> Seq<Word> {
    words.filter(has_length(n))
}

/// Sorts words by length, longest first. Words of equal length keep the
/// order they came in.
pub fn sort_by_length_desc(words: &mut Vec<Word>)
    ensures
        longest_first(final(words)@),
        forall|n: nat| #[trigger] of_length(final(words)@, n) == of_length(old(words)@, n),
        final(words)@.to_multiset() == old(words)@.to_multiset(),
        final(words)@.len() == old(words)@.len(),
{
    let mut i: usize = 0;
    while i < words.len()
        invariant
            i <= words@.len(),
            words@.len() == old(words)@.len(),
            longest_first(words@.take(i as int)),
            words@.skip(i as int) == old(words)@.skip(i as int),
            forall|n: nat| #[trigger]
                of_length(words@.take(i as int), n) == of_length(old(words)@.take(i as int), n),
            words@.to_multiset() == old(words)@.to_multiset(),
        decreases words@.len() - i,
    {
        let ghost before = words@;
        let ghost front = before.take(i as int);
        let moved_len = words[i].len();
        let mut p: usize = 0;
        while p < i && words[p].len() >= moved_len
            invariant
                p <= i < words@.len(),
                words@ == before,
                moved_len == before[i as int].letters().len(),
                forall|k: int| 0 <= k < p ==> (#[trigger] before[k]).letters().len() >= moved_len,
            decreases i - p,
        {
            p += 1;
        }
        let moved = words.remove(i);
        words.insert(p, moved);
        proof {
            let next = old(words)@.take(i + 1);
            assert(before[i as int] == before.skip(i as int)[0]);
            assert(old(words)@[i as int] == old(words)@.skip(i as int)[0]);
            assert(next == old(words)@.take(i as int).push(moved));
            assert(words@.take(i + 1) == front.insert(p as int, moved));
            assert forall|k: int| p <= k < front.len() implies (#[trigger] front[k]).letters().len()
                < moved_len by {
                assert(front[p as int].letters().len() >= front[k].letters().len());
            }
            assert forall|n: nat| #[trigger]
                of_length(words@.take(i + 1), n) == of_length(next, n) by {
                lemma_insert_keeps_length_classes(front, moved, p as int, n);
                old(words)@.take(i as int).lemma_filter_push(moved, has_length(n));
                front.lemma_filter_push(moved, has_length(n));
                assert(of_length(front, n) == of_length(old(words)@.take(i as int), n));
                assert(of_length(words@.take(i + 1), n) == of_length(front.push(moved), n));
                assert(of_length(next, n) == of_length(old(words)@.take(i as int).push(moved), n));
            }
            assert(words@.skip(i + 1) == old(words)@.skip(i + 1)) by {
                assert(words@.skip(i + 1) == before.skip(i as int).skip(1));
                assert(old(words)@.skip(i + 1) == old(words)@.skip(i as int).skip(1));
            }
            assert(words@.to_multiset() == before.to_multiset()) by {
                broadcast use vstd::multiset::group_multiset_axioms;

                vstd::seq_lib::to_multiset_remove(before, i as int);
                vstd::seq_lib::to_multiset_insert(before.remove(i as int), p as int, moved);
                before.to_multiset_ensures();
                assert(before.contains(moved));
                assert(before.to_multiset().remove(moved).insert(moved) =~= before.to_multiset());
            }
        }
        i += 1;
    }
    assert(words@.take(words@.len() as int) == words@);
    assert(old(words)@.take(old(words)@.len() as int) == old(words)@);
}

/// Putting a word into a sorted run, behind the words at least as long and
/// before the shorter ones, leaves each class of equal length with the word
/// added at its end, or unchanged.
proof fn lemma_insert_keeps_length_classes(front: Seq<Word>, moved: Word, p: int, n: nat)
    requires
        0 <= p <= front.len(),
        forall|k: int|
            p <= k < front.len() ==> (#[trigger] front[k]).letters().len()
                < moved.letters().len(),
    ensures
        of_length(front.insert(p, moved), n) == of_length(front.push(moved), n),
{
    let same = has_length(n);
    let head = front.take(p);
    let tail = front.skip(p);
    assert(front.insert(p, moved) == head.push(moved) + tail);
    assert(front == head + tail);
    Seq::filter_distributes_over_add(head.push(moved), tail, same);
    Seq::filter_distributes_over_add(head, tail, same);
    head.lemma_filter_push(moved, same);
    front.lemma_filter_push(moved, same);
    if same(moved) {
        assert(tail.all(|w: Word| !same(w)));
        tail.lemma_all_neg_filter_empty(same);
        assert(tail.filter(same) == Seq::<Word>::empty());
    }
}

/// The class of the length of the last word of a sorted run ends with that
/// word, and taking the word off the run takes it off its class and leaves
/// the other classes as they were.
proof fn lemma_last_of_sorted(words: Seq<Word>, n: nat)
    requires
        words.len() > 0,
    ensures
        of_length(words, n) == if words.last().letters().len() == n {
            of_length(words.drop_last(), n).push(words.last())
        } else {
            of_length(words.drop_last(), n)
        },
{
    words.drop_last().lemma_filter_push(words.last(), has_length(n));
    assert(words.drop_last().push(words.last()) == words);
}

/// A word of a run is in the class of its length.
proof fn lemma_word_in_its_class(words: Seq<Word>, i: int)
    requires
        0 <= i < words.len(),
    ensures
        of_length(words, words[i].letters().len()).contains(words[i]),
{
    let same = has_length(words[i].letters().len());
    assert(same(words[i]));
    words.lemma_filter_contains(same, i);
}

/// A word in a class of a run is a word of the run, and has the length of
/// the class.
proof fn lemma_class_word_in_run(words: Seq<Word>, n: nat, w: Word)
    requires
        of_length(words, n).contains(w),
    ensures
        words.contains(w),
        w.letters().len() == n,
{
    let same = has_length(n);
    let class = words.filter(same);
    let k = choose|k: int| 0 <= k < class.len() && class[k] == w;
    words.lemma_filter_pred(same, k);
    words.lemma_filter_contains_rev(same, w);
}

/// Two runs sorted longest first whose classes of equal length agree are
/// the same run.
pub proof fn lemma_sorted_classes_determine(one: Seq<Word>, other: Seq<Word>)
    requires
        longest_first(one),
        longest_first(other),
        forall|n: nat| #[trigger] of_length(one, n) == of_length(other, n),
    ensures
        one == other,
    decreases one.len(),
{
    if one.len() == 0 {
        if other.len() > 0 {
            lemma_word_in_its_class(other, 0);
            let n = other[0].letters().len();
            assert(of_length(one, n) == of_length(other, n));
            lemma_class_word_in_run(one, n, other[0]);
        }
        assert(one =~= other);
    } else {
        let last = one.last();
        let n = last.letters().len();
        lemma_last_of_sorted(one, n);
        assert(of_length(other, n) == of_length(one, n));
        assert(of_length(other, n).last() == last);
        lemma_class_word_in_run(other, n, last);
        assert(other.len() > 0);
        let end = other.last();
        let m = end.letters().len();
        // The last word of either run is as short as any word of that run.
        let k = choose|k: int| 0 <= k < other.len() && other[k] == last;
        assert(m <= n);
        lemma_word_in_its_class(other, other.len() - 1);
        assert(of_length(one, m) == of_length(other, m));
        lemma_class_word_in_run(one, m, end);
        let j = choose|j: int| 0 <= j < one.len() && one[j] == end;
        assert(n <= m);
        lemma_last_of_sorted(other, n);
        assert(end == last) by {
            assert(of_length(other.drop_last(), n).push(end).last() == end);
        }
        assert forall|c: nat| #[trigger]
            of_length(one.drop_last(), c) == of_length(other.drop_last(), c) by {
            lemma_last_of_sorted(one, c);
            lemma_last_of_sorted(other, c);
            assert(of_length(one, c) == of_length(other, c));
            if c == n {
                assert(of_length(one.drop_last(), c).push(last).drop_last() == of_length(
                    one.drop_last(),
                    c,
                ));
                assert(of_length(other.drop_last(), c).push(last).drop_last() == of_length(
                    other.drop_last(),
                    c,
                ));
            }
        }
        lemma_sorted_classes_determine(one.drop_last(), other.drop_last());
        assert(one == one.drop_last().push(last));
        assert(other == other.drop_last().push(end));
    }
}

/// Every letter kept by `letters_of` is one of `A` to `Z`.
pub proof fn lemma_letters_are_upper(text: Seq<char>)
    ensures
        is_upper_text(letters_of(text)),
{
    let keep = |c: char| is_ascii_letter(c);
    let kept = text.filter(keep);
    assert forall|i: int| 0 <= i < letters_of(text).len() implies is_upper_letter(
        #[trigger] letters_of(text)[i],
    ) by {
        text.lemma_filter_pred(keep, i);
        assert(is_ascii_letter(kept[i]));
    }
}

/// A text of uppercase letters only is its own letters.
pub proof fn lemma_upper_text_is_its_letters(text: Seq<char>)
    requires
        is_upper_text(text),
    ensures
        letters_of(text) == text,
    decreases text.len(),
{
    let keep = |c: char| is_ascii_letter(c);
    if text.len() == 0 {
        reveal(Seq::filter);
        assert(text.filter(keep) == text);
    } else {
        let front = text.drop_last();
        lemma_upper_text_is_its_letters(front);
        front.lemma_filter_push(text.last(), keep);
        assert(front.push(text.last()) == text);
        assert(front.filter(keep).map_values(|c: char| upper_of(c)) == front);
        assert(front.filter(keep) == front) by {
            front.lemma_filter_len(keep);
            assert(front.filter(keep).len() == front.len());
            lemma_full_filter_is_identity(front, keep);
        }
    }
}

/// A filter that drops nothing changes nothing.
proof fn lemma_full_filter_is_identity(text: Seq<char>, keep: spec_fn(char) -> bool)
    requires
        text.filter(keep).len() == text.len(),
    ensures
        text.filter(keep) == text,
    decreases text.len(),
{
    reveal(Seq::filter);
    if text.len() > 0 {
        let front = text.drop_last();
        front.lemma_filter_len(keep);
        lemma_full_filter_is_identity(front, keep);
    }
}

/// Normalizing is idempotent: the normalized form of a text is its own
/// normalized form, and holds uppercase letters only.
pub proof fn lemma_normalized_form_idempotent(text: Seq<char>)
    ensures
        is_upper_text(normalized_form(text)),
        normalized_form(normalized_form(text)) == normalized_form(text),
{
    let once = normalized_form(text);
    lemma_letters_are_upper(decomposed(text));
    assert(is_ascii_text(once));
    lemma_upper_text_is_its_letters(once);
}

/// A text without ASCII letters, the empty text among them, normalizes to
/// the empty text, provided it is ASCII.
pub proof fn lemma_no_letters_normalize_to_empty(text: Seq<char>)
    requires
        is_ascii_text(text),
        forall|i: int| 0 <= i < text.len() ==> !is_ascii_letter(#[trigger] text[i]),
    ensures
        normalized_form(text).len() == 0,
{
    let keep = |c: char| is_ascii_letter(c);
    assert(text.all(|c: char| !keep(c)));
    text.lemma_all_neg_filter_empty(keep);
}

} // verus!
