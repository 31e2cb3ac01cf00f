//! Flesch-Kincaid grade level of a document's prose.
use vstd::prelude::*;
use crate::markdown::{all_space, lemma_blank_has_no_prose, normalized, strip_markdown};
use crate::text::{chars_of, lower_of, lowercase, string_of, split_words, views, words_of, words_scan};

verus! {

/// Whether `char::is_alphabetic` holds of `c` (the Unicode `Alphabetic` property).
pub uninterp spec fn alphabetic(c: char) -> bool;

/// Relies on `char::is_alphabetic`.
#[verifier::external_body]
fn is_alphabetic_char(c: char) -> (r: bool)
    ensures
        r == alphabetic(c),
{
    c.is_alphabetic()
}

/// `s` without leading non-alphabetic characters.
pub open spec fn trim_nonalpha_start(s: Seq<char>) -> Seq<char>
    decreases s.len(),
{
    if s.len() > 0 && !alphabetic(s[0]) {
        trim_nonalpha_start(s.drop_first())
    } else {
        s
    }
}

/// `s` without trailing non-alphabetic characters.
pub open spec fn trim_nonalpha_end(s: Seq<char>) -> Seq<char>
    decreases s.len(),
{
    if s.len() > 0 && !alphabetic(s.last()) {
        trim_nonalpha_end(s.drop_last())
    } else {
        s
    }
}

/// A word lower-cased, without leading and trailing non-alphabetic characters.
pub open spec fn cleaned_word(w: Seq<char>) -> Seq<char> {
    trim_nonalpha_end(trim_nonalpha_start(lower_of(w)))
}

/// Bytes that UTF-8 takes for `c`.
pub open spec fn utf8_width(c: char) -> nat {
    let u = c as u32;
    if u < 0x80 {
        1
    } else if u < 0x800 {
        2
    } else if u < 0x10000 {
        3
    } else {
        4
    }
}

/// Bytes that UTF-8 takes for `s`.
pub open spec fn utf8_len(s: Seq<char>) -> nat
    decreases s.len(),
{
    if s.len() == 0 {
        0
    } else {
        utf8_len(s.drop_last()) + utf8_width(s.last())
    }
}

pub open spec fn is_vowel(c: char) -> bool {
    c == 'a' || c == 'e' || c == 'i' || c == 'o' || c == 'u' || c == 'y'
}

/// Number of maximal runs of vowels in `s`.
pub open spec fn vowel_groups(s: Seq<char>) -> nat
    decreases s.len(),
{
    if s.len() == 0 {
        0
    } else {
        let starts = is_vowel(s.last()) && (s.len() == 1 || !is_vowel(s[s.len() - 2]));
        vowel_groups(s.drop_last()) + if starts {
            1nat
        } else {
            0nat
        }
    }
}

/// The estimated syllables of a word: none for a word with no letters, one for
/// a word of at most three bytes, else its vowel groups less a silent final `e`,
/// and at least one.
pub open spec fn syllables_of(w: Seq<char>) -> nat {
    let c = cleaned_word(w);
    if c.len() == 0 {
        0
    } else if utf8_len(c) <= 3 {
        1
    } else {
        let g = vowel_groups(c);
        let g2: nat = if c.last() == 'e' && g > 1 {
            (g - 1) as nat
        } else {
            g
        };
        if g2 < 1 {
            1
        } else {
            g2
        }
    }
}

fn char_is_vowel(c: char) -> (r: bool)
    ensures
        r == is_vowel(c),
{
    c == 'a' || c == 'e' || c == 'i' || c == 'o' || c == 'u' || c == 'y'
}

fn char_width(c: char) -> (r: usize)
    ensures
        r == utf8_width(c),
{
    let u = c as u32;
    if u < 0x80 {
        1
    } else if u < 0x800 {
        2
    } else if u < 0x10000 {
        3
    } else {
        4
    }
}

/// Estimates the syllables of one whitespace-delimited word.
pub fn count_word_syllables(word: &str) -> (r: usize)
    ensures
        r == syllables_of(word@),
{
    let lw = lowercase(word);
    let v = chars_of(lw.as_str());
    let n = v.len();
    let mut a: usize = 0;
    assert(v@.subrange(0, n as int) =~= v@);
    while a < n && !is_alphabetic_char(v[a])
        invariant
            a <= n == v@.len(),
            trim_nonalpha_start(v@) == trim_nonalpha_start(v@.subrange(a as int, n as int)),
        decreases n - a,
    {
        assert(v@.subrange(a as int, n as int).drop_first() =~= v@.subrange(a + 1, n as int));
        a += 1;
    }
    let mut b: usize = n;
    while b > a && !is_alphabetic_char(v[b - 1])
        invariant
            a <= b <= n == v@.len(),
            trim_nonalpha_start(v@) == v@.subrange(a as int, n as int),
            cleaned_word(word@) == trim_nonalpha_end(v@.subrange(a as int, b as int)),
        decreases b,
    {
        assert(v@.subrange(a as int, b as int).drop_last() =~= v@.subrange(a as int, b - 1));
        b -= 1;
    }
    let ghost c = v@.subrange(a as int, b as int);
    assert(c == cleaned_word(word@));
    if a == b {
        return 0;
    }
    let mut bytes: usize = 0;
    let mut groups: usize = 0;
    let mut prev_vowel = false;
    let mut i: usize = a;
    while i < b
        invariant
            a <= i <= b <= n == v@.len(),
            c == v@.subrange(a as int, b as int),
            bytes <= 3 ==> bytes == utf8_len(v@.subrange(a as int, i as int)),
            bytes > 3 ==> utf8_len(v@.subrange(a as int, i as int)) > 3,
            bytes <= 7,
            groups == vowel_groups(v@.subrange(a as int, i as int)),
            groups <= i - a,
            prev_vowel == (i > a && is_vowel(v@[i - 1])),
        decreases b - i,
    {
        let ghost s = v@.subrange(a as int, i + 1);
        assert(s.drop_last() =~= v@.subrange(a as int, i as int));
        let cv = char_is_vowel(v[i]);
        if bytes <= 3 {
            bytes += char_width(v[i]);
        }
        if cv && !prev_vowel {
            groups += 1;
        }
        prev_vowel = cv;
        i += 1;
    }
    if bytes <= 3 {
        return 1;
    }
    if v[b - 1] == 'e' && groups > 1 {
        groups -= 1;
    }
    if groups < 1 {
        1
    } else {
        groups
    }
}

/// Whether `c` ends a sentence.
pub open spec fn is_terminator(c: char) -> bool {
    c == '.' || c == '!' || c == '?' || c == ':'
}

/// Sentences in `s`: its sentence-ending characters, and at least one.
pub open spec fn sentences_in(s: Seq<char>) -> nat {
    let n = s.filter(|c: char| is_terminator(c)).len();
    if n < 1 {
        1
    } else {
        n
    }
}

/// Total estimated syllables of the words `ws`.
pub open spec fn syllable_sum(ws: Seq<Seq<char>>) -> nat
    decreases ws.len(),
{
    if ws.len() == 0 {
        0
    } else {
        syllable_sum(ws.drop_last()) + syllables_of(ws.last())
    }
}

/// Counts sentence-ending characters (`.`, `!`, `?`, `:`), at least one.
pub fn count_sentences(text: &str) -> (r: usize)
    ensures
        r == sentences_in(text@),
{
    let v = chars_of(text);
    let mut n: usize = 0;
    let mut i: usize = 0;
    while i < v.len()
        invariant
            i <= v@.len(),
            n == v@.subrange(0, i as int).filter(|c: char| is_terminator(c)).len(),
            n <= i,
        decreases v@.len() - i,
    {
        proof {
            reveal(Seq::filter);
            assert(v@.subrange(0, i + 1).drop_last() =~= v@.subrange(0, i as int));
        }
        let c = v[i];
        if c == '.' || c == '!' || c == '?' || c == ':' {
            n += 1;
        }
        i += 1;
    }
    assert(v@.subrange(0, v@.len() as int) =~= v@);
    if n < 1 {
        1
    } else {
        n
    }
}

/// Counts whitespace-delimited words.
pub fn count_words(text: &str) -> (r: usize)
    ensures
        r == words_of(text@).len(),
{
    let v = chars_of(text);
    let ws = split_words(&v);
    ws.len()
}

/// Total estimated syllables of the words of `ws`; at most `usize::MAX` a word.
fn sum_syllables(ws: &Vec<Vec<char>>) -> (r: u128)
    ensures
        r == syllable_sum(views(ws@)),
        r <= ws@.len() * usize::MAX,
{
    let mut total: u128 = 0;
    let mut i: usize = 0;
    while i < ws.len()
        invariant
            i <= ws@.len(),
            total == syllable_sum(views(ws@).subrange(0, i as int)),
            total <= i * usize::MAX,
        decreases ws@.len() - i,
    {
        assert(views(ws@).subrange(0, i + 1).drop_last() =~= views(ws@).subrange(0, i as int));
        let w = string_of(&ws[i]);
        let n = count_word_syllables(w.as_str());
        total = total + n as u128;
        i += 1;
    }
    assert(views(ws@).subrange(0, ws@.len() as int) =~= views(ws@));
    total
}

/// Total estimated syllables of the whitespace-delimited words of `text`.
pub fn count_syllables(text: &str) -> (r: u128)
    ensures
        r == syllable_sum(words_of(text@)),
        r <= words_of(text@).len() * usize::MAX,
{
    let v = chars_of(text);
    let ws = split_words(&v);
    sum_syllables(&ws)
}

/// The counts behind a grade.
pub struct ReadabilityScore {
    pub words: usize,
    pub sentences: usize,
    pub syllables: u128,
}

impl ReadabilityScore {
    /// Counts a grade can be computed from: at least one word and one
    /// sentence, and at most `usize::MAX` syllables a word.
    pub open spec fn wf(&self) -> bool {
        self.words >= 1 && self.sentences >= 1 && self.syllables <= self.words * usize::MAX
    }

    /// The counts of the prose `t`.
    pub open spec fn counts(&self, t: Seq<char>) -> bool {
        self.words == words_of(t).len() && self.sentences == sentences_in(t) && self.syllables
            == syllable_sum(words_of(t))
    }
}

/// The grade `0.39 × words/sentences + 11.8 × syllables/words − 15.59`,
/// multiplied by `100 × words × sentences`.
pub open spec fn scaled_grade(words: int, sentences: int, syllables: int) -> int {
    39 * words * words + 1180 * syllables * sentences - 1559 * sentences * words
}

/// Whether the grade of the counts is above `max_centi / 100`.
pub open spec fn grade_above(words: int, sentences: int, syllables: int, max_centi: int) -> bool {
    scaled_grade(words, sentences, syllables) > max_centi * sentences * words
}

#[verifier::nonlinear]
proof fn lemma_split(w: int, s: int, syl: int, q1: int, r1: int, a: int, b: int, q2: int, r2: int)
    requires
        w > 0,
        s > 0,
        39 * w == s * q1 + r1,
        syl == w * a + b,
        1180 * b == w * q2 + r2,
    ensures
        39 * w * w + 1180 * syl * s == (q1 + 1180 * a + q2) * s * w + (r1 * w + r2 * s),
{
}

#[verifier::nonlinear]
proof fn lemma_compare(sw: int, f: int, d: int)
    requires
        sw > 0,
        0 <= f < 2 * sw,
    ensures
        d <= -1 ==> f > d * sw,
        d >= 2 ==> f < d * sw,
        d == 0 ==> (f > d * sw <==> f > 0),
        d == 1 ==> (f > d * sw <==> f > sw),
{
}

#[verifier::nonlinear]
proof fn lemma_above(w: int, s: int, syl: int, m: int, q: int, f: int)
    requires
        w > 0,
        s > 0,
        39 * w * w + 1180 * syl * s == q * s * w + f,
    ensures
        grade_above(w, s, syl, m) <==> f > (m + 1559 - q) * (s * w),
{
}

impl ReadabilityScore {
    /// Whether the grade is above `max_centi / 100`, computed exactly.
    pub fn grade_exceeds(&self, max_centi: i64) -> (r: bool)
        requires
            self.wf(),
        ensures
            r == grade_above(
                self.words as int,
                self.sentences as int,
                self.syllables as int,
                max_centi as int,
            ),
    {
        let w = self.words as u128;
        let s = self.sentences as u128;
        let syl = self.syllables;
        assert(w <= u64::MAX && s <= u64::MAX);
        let q1 = 39 * w / s;
        let r1 = 39 * w % s;
        let a = syl / w;
        let b = syl % w;
        proof {
            vstd::arithmetic::div_mod::lemma_fundamental_div_mod(39 * w as int, s as int);
            vstd::arithmetic::div_mod::lemma_fundamental_div_mod(syl as int, w as int);
            vstd::arithmetic::div_mod::lemma_mod_pos_bound(39 * w as int, s as int);
            vstd::arithmetic::div_mod::lemma_mod_pos_bound(syl as int, w as int);
            vstd::arithmetic::div_mod::lemma_multiply_divide_le(
                syl as int,
                w as int,
                usize::MAX as int,
            );
        }
        let c = 1180 * b;
        let q2 = c / w;
        let r2 = c % w;
        proof {
            vstd::arithmetic::div_mod::lemma_fundamental_div_mod(c as int, w as int);
            vstd::arithmetic::div_mod::lemma_mod_pos_bound(c as int, w as int);
            vstd::arithmetic::div_mod::lemma_multiply_divide_le(c as int, w as int, 1180);
            vstd::arithmetic::div_mod::lemma_multiply_divide_le(
                39 * w as int,
                s as int,
                39 * u64::MAX,
            );
            lemma_split(w as int, s as int, syl as int, q1 as int, r1 as int, a as int, b as int,
                q2 as int, r2 as int);
            assert(r1 * w < s * w) by (nonlinear_arith)
                requires r1 < s, w > 0;
            assert(r2 * s < w * s) by (nonlinear_arith)
                requires r2 < w, s > 0;
            assert(s * w <= u64::MAX * u64::MAX) by (nonlinear_arith)
                requires s <= u64::MAX, w <= u64::MAX;
            let ghost big_q = q1 + 1180 * a + q2;
            let ghost f = r1 * w + r2 * s;
            lemma_above(w as int, s as int, syl as int, max_centi as int, big_q, f);
            lemma_compare(s * w, f, max_centi + 1559 - big_q);
            assert(s * (w - r2) == s * w - r2 * s) by (nonlinear_arith);
            assert(s * (w - r2) <= s * w) by (nonlinear_arith)
                requires r2 >= 0, s >= 0;
            assert((r1 > 0 || r2 > 0) <==> f > 0) by (nonlinear_arith)
                requires r1 >= 0, r2 >= 0, w > 0, s > 0, f == r1 * w + r2 * s;
        }
        let whole = (q1 + 1180 * a + q2) as i128;
        let limit = max_centi as i128 + 1559;
        if whole > limit {
            true
        } else if whole == limit {
            r1 > 0 || r2 > 0
        } else if whole == limit - 1 {
            r1 * w > s * (w - r2)
        } else {
            false
        }
    }
}

/// The outcome of a readability check.
pub enum Readability {
    /// No scorable prose.
    Skip,
    /// The grade, with no maximum given.
    Grade(ReadabilityScore),
    /// The grade is at most the maximum.
    Pass(ReadabilityScore),
    /// The grade is above the maximum.
    Fail(ReadabilityScore),
}

/// What a readability check of `content` against `max_centi` (a maximum grade
/// in hundredths) reports.
pub open spec fn readability_outcome(content: Seq<char>, max_centi: Option<i64>, r: Readability) -> bool {
    let t = normalized(content);
    if words_of(t).len() == 0 {
        r is Skip
    } else {
        match r {
            Readability::Skip => false,
            Readability::Grade(sc) => max_centi is None && sc.counts(t),
            Readability::Pass(sc) => max_centi is Some && sc.counts(t) && !grade_above(
                sc.words as int,
                sc.sentences as int,
                sc.syllables as int,
                max_centi->0 as int,
            ),
            Readability::Fail(sc) => max_centi is Some && sc.counts(t) && grade_above(
                sc.words as int,
                sc.sentences as int,
                sc.syllables as int,
                max_centi->0 as int,
            ),
        }
    }
}

/// Scores the prose of a markdown document with the Flesch-Kincaid grade
/// level, and judges it against a maximum grade in hundredths, if one is given.
pub fn check(content: &str, max_grade_centi: Option<i64>) -> (r: Readability)
    ensures
        readability_outcome(content@, max_grade_centi, r),
{
    let text = strip_markdown(content);
    let sentences = count_sentences(text.as_str());
    let v = chars_of(text.as_str());
    let ws = split_words(&v);
    let words = ws.len();
    if words == 0 {
        return Readability::Skip;
    }
    let syllables = sum_syllables(&ws);
    let score = ReadabilityScore { words, sentences, syllables };
    match max_grade_centi {
        None => Readability::Grade(score),
        Some(m) => {
            if score.grade_exceeds(m) {
                Readability::Fail(score)
            } else {
                Readability::Pass(score)
            }
        },
    }
}

/// With the word and sentence counts fixed, more syllables never lower the
/// grade: the scaled grade (over the same positive denominator) does not
/// decrease, and a grade above a maximum stays above it.
pub proof fn lemma_grade_monotone_in_syllables(
    words: int,
    sentences: int,
    fewer: int,
    more: int,
    max_centi: int,
)
    requires
        words >= 1,
        sentences >= 1,
        0 <= fewer <= more,
    ensures
        scaled_grade(words, sentences, fewer) <= scaled_grade(words, sentences, more),
        grade_above(words, sentences, fewer, max_centi) ==> grade_above(
            words,
            sentences,
            more,
            max_centi,
        ),
{
    assert(1180 * fewer * sentences <= 1180 * more * sentences) by (nonlinear_arith)
        requires
            fewer <= more,
            sentences >= 1,
    ;
}

/// A document of whitespace alone (the empty one included) is skipped: no
/// outcome with a grade is ever reported for it.
pub proof fn lemma_blank_document_skips(content: Seq<char>, max_centi: Option<i64>, r: Readability)
    requires
        all_space(content),
        readability_outcome(content, max_centi, r),
    ensures
        r is Skip,
{
    lemma_blank_has_no_prose(content);
    assert(words_scan(normalized(content)) == (Seq::<Seq<char>>::empty(), Seq::<char>::empty()));
}

/// A word whose letters, once cleaned, take one to three bytes has exactly one
/// syllable.
pub proof fn lemma_short_word_one_syllable(w: Seq<char>)
    requires
        cleaned_word(w).len() > 0,
        utf8_len(cleaned_word(w)) <= 3,
    ensures
        syllables_of(w) == 1,
{
}

} // verus!
