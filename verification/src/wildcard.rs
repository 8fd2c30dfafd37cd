//! Matching of process names and paths against wildcard patterns.
use vstd::prelude::*;

use crate::text;
use crate::text::to_chars;

verus! {

/// Turns an ASCII upper case letter into its lower case form.
pub fn to_ascii_lower(c: char) -> (r: char)
    ensures
        r == text::ascii_lower(c),
{
    if 'A' <= c && c <= 'Z' {
        (c as u8 + 32u8) as char
    } else {
        c
    }
}

/// Whether the pattern character `p`, which is no asterisk, stands for `c`.
pub open spec fn stands_for(p: char, c: char) -> bool {
    p == '?' || text::ascii_lower(p) == text::ascii_lower(c)
}

/// Whether `text` as a whole fits `pattern`: an asterisk stands for zero or more
/// characters, a question mark for exactly one, and any other character for
/// itself, with ASCII letters in either case.
pub open spec fn matches(pattern: Seq<char>, text: Seq<char>) -> bool
    decreases pattern.len() + text.len(),
{
    if pattern.len() == 0 {
        text.len() == 0
    } else if pattern[0] == '*' {
        ||| matches(pattern.drop_first(), text)
        ||| text.len() > 0 && matches(pattern, text.drop_first())
    } else {
        &&& text.len() > 0
        &&& stands_for(pattern[0], text[0])
        &&& matches(pattern.drop_first(), text.drop_first())
    }
}

/// `matches` on what is left of the pattern from `i` on and of the text from
/// `j` on.
spec fn fits(pattern: Seq<char>, i: int, text: Seq<char>, j: int) -> bool {
    matches(pattern.skip(i), text.skip(j))
}

/// Unfolds `fits` by one pattern character.
proof fn lemma_fits_step(pattern: Seq<char>, i: int, text: Seq<char>, j: int)
    requires
        0 <= i <= pattern.len(),
        0 <= j <= text.len(),
    ensures
        i == pattern.len() ==> fits(pattern, i, text, j) == (j == text.len()),
        i < pattern.len() && pattern[i] == '*' ==> fits(pattern, i, text, j) == (fits(
            pattern,
            i + 1,
            text,
            j,
        ) || (j < text.len() && fits(pattern, i, text, j + 1))),
        i < pattern.len() && pattern[i] != '*' ==> fits(pattern, i, text, j) == (j < text.len()
            && stands_for(pattern[i], text[j]) && fits(pattern, i + 1, text, j + 1)),
{
    if i < pattern.len() {
        assert(pattern.skip(i).drop_first() == pattern.skip(i + 1));
    }
    if j < text.len() {
        assert(text.skip(j).drop_first() == text.skip(j + 1));
    }
}

/// Whether the pattern characters from `i` to `k` hold no asterisk and stand
/// one by one for the text from `j` on.
spec fn segment_fits(pattern: Seq<char>, i: int, k: int, text: Seq<char>, j: int) -> bool {
    &&& j + (k - i) <= text.len()
    &&& forall|x: int|
        i <= x < k ==> #[trigger] pattern[x] != '*' && stands_for(pattern[x], text[j + (x - i)])
}

/// A segment that fits where it stands can be consumed.
proof fn lemma_segment(pattern: Seq<char>, i: int, k: int, text: Seq<char>, j: int)
    requires
        0 <= i <= k <= pattern.len(),
        0 <= j <= text.len(),
        segment_fits(pattern, i, k, text, j),
    ensures
        fits(pattern, i, text, j) == fits(pattern, k, text, j + (k - i)),
    decreases k - i,
{
    if i < k {
        lemma_fits_step(pattern, i, text, j);
        assert(pattern[i] != '*');
        assert forall|x: int| i + 1 <= x < k implies #[trigger] pattern[x] != '*' && stands_for(
            pattern[x],
            text[j + 1 + (x - (i + 1))],
        ) by {
            assert(j + 1 + (x - (i + 1)) == j + (x - i));
        }
        lemma_segment(pattern, i + 1, k, text, j + 1);
    }
}

/// A pattern that begins without asterisks consumes one character for each of
/// its own up to `k`.
proof fn lemma_plain_prefix(pattern: Seq<char>, i: int, k: int, text: Seq<char>, j: int)
    requires
        0 <= i <= k <= pattern.len(),
        0 <= j <= text.len(),
        forall|x: int| i <= x < k ==> #[trigger] pattern[x] != '*',
        fits(pattern, i, text, j),
    ensures
        j + (k - i) <= text.len(),
        fits(pattern, k, text, j + (k - i)),
    decreases k - i,
{
    if i < k {
        lemma_fits_step(pattern, i, text, j);
        assert(pattern[i] != '*');
        lemma_plain_prefix(pattern, i + 1, k, text, j + 1);
    }
}

/// What an asterisk at `i` matches may begin earlier.
proof fn lemma_star_absorbs(pattern: Seq<char>, i: int, text: Seq<char>, j: int, later: int)
    requires
        0 <= i < pattern.len(),
        pattern[i] == '*',
        0 <= j <= later <= text.len(),
        fits(pattern, i, text, later),
    ensures
        fits(pattern, i, text, j),
    decreases later - j,
{
    if j < later {
        lemma_star_absorbs(pattern, i, text, j + 1, later);
        lemma_fits_step(pattern, i, text, j);
    }
}

/// Where an asterisk at `i` matches, the rest of the pattern fits at some later
/// place.
proof fn lemma_star_choice(pattern: Seq<char>, i: int, text: Seq<char>, j: int) -> (at: int)
    requires
        0 <= i < pattern.len(),
        pattern[i] == '*',
        0 <= j <= text.len(),
        fits(pattern, i, text, j),
    ensures
        j <= at <= text.len(),
        fits(pattern, i + 1, text, at),
    decreases text.len() - j,
{
    lemma_fits_step(pattern, i, text, j);
    if fits(pattern, i + 1, text, j) {
        j
    } else {
        lemma_star_choice(pattern, i, text, j + 1)
    }
}

/// A segment after the asterisk at `star` that fits at `mark` is as good as any
/// later one: matching goes on from the next asterisk, or from the text's end.
proof fn lemma_earliest_segment(
    pattern: Seq<char>,
    star: int,
    p: int,
    text: Seq<char>,
    mark: int,
    t: int,
)
    requires
        0 <= star < p <= pattern.len(),
        pattern[star] == '*',
        0 <= mark <= t <= text.len(),
        t - mark == p - (star + 1),
        segment_fits(pattern, star + 1, p, text, mark),
        t == text.len() || (p < pattern.len() && pattern[p] == '*'),
    ensures
        fits(pattern, star, text, mark) == fits(pattern, p, text, t),
{
    lemma_segment(pattern, star + 1, p, text, mark);
    lemma_fits_step(pattern, star, text, mark);
    if fits(pattern, star, text, mark) {
        let at = lemma_star_choice(pattern, star, text, mark);
        lemma_plain_prefix(pattern, star + 1, p, text, at);
        if t < text.len() {
            lemma_star_absorbs(pattern, p, text, t, at + (p - (star + 1)));
        }
    }
}

/// Matches a string against a wildcard pattern containing `*` and `?`.
/// Case-insensitive (ASCII).
///
/// - `*` matches zero or more characters.
/// - `?` matches exactly one character.
pub fn wildcard_match(pattern: &str, text: &str) -> (r: bool)
    ensures
        r == matches(pattern@, text@),
{
    let pat: Vec<char> = to_chars(pattern);
    let txt: Vec<char> = to_chars(text);
    let ghost ps = pattern@;
    let ghost ts = text@;

    let mut p: usize = 0;
    let mut t: usize = 0;
    let mut star_idx: Option<usize> = None;
    let mut match_idx: usize = 0;
    assert(ps.skip(0) == ps && ts.skip(0) == ts);

    while t < txt.len()
        invariant
            ps == pattern@,
            ts == text@,
            pat@ == ps,
            txt@ == ts,
            p <= ps.len(),
            t <= ts.len(),
            match star_idx {
                None => matches(ps, ts) == fits(ps, p as int, ts, t as int),
                Some(star) => {
                    &&& star < p
                    &&& ps[star as int] == '*'
                    &&& match_idx <= t
                    &&& t - match_idx == p - (star + 1)
                    &&& segment_fits(ps, star + 1, p as int, ts, match_idx as int)
                    &&& matches(ps, ts) == fits(ps, star as int, ts, match_idx as int)
                },
            },
        decreases
            match star_idx {
                None => ps.len() + 1,
                Some(star) => (ps.len() - star) as nat,
            },
            ts.len() - match_idx,
            ts.len() - t,
    {
        proof {
            lemma_fits_step(ps, p as int, ts, t as int);
        }
        if p < pat.len() && pat[p] == '*' {
            proof {
                if let Some(star) = star_idx {
                    lemma_earliest_segment(
                        ps,
                        star as int,
                        p as int,
                        ts,
                        match_idx as int,
                        t as int,
                    );
                }
            }
            star_idx = Some(p);
            match_idx = t;
            p = p + 1;
        } else if p < pat.len() && (pat[p] == '?' || to_ascii_lower(pat[p]) == to_ascii_lower(
            txt[t],
        )) {
            p = p + 1;
            t = t + 1;
        } else if let Some(star) = star_idx {
            proof {
                lemma_segment(ps, star + 1, p as int, ts, match_idx as int);
                lemma_fits_step(ps, star as int, ts, match_idx as int);
            }
            p = star + 1;
            match_idx = match_idx + 1;
            t = match_idx;
        } else {
            return false;
        }
    }

    proof {
        if let Some(star) = star_idx {
            lemma_earliest_segment(ps, star as int, p as int, ts, match_idx as int, t as int);
        }
    }
    assert(t == ts.len());
    while p < pat.len() && pat[p] == '*'
        invariant
            pat@ == ps,
            t == ts.len(),
            p <= ps.len(),
            matches(ps, ts) == fits(ps, p as int, ts, t as int),
        decreases ps.len() - p,
    {
        proof {
            lemma_fits_step(ps, p as int, ts, t as int);
        }
        p = p + 1;
    }
    proof {
        lemma_fits_step(ps, p as int, ts, t as int);
    }
    p == pat.len()
}

/// Whether `pattern` holds no asterisk.
pub open spec fn is_fixed(pattern: Seq<char>) -> bool {
    forall|i: int| 0 <= i < pattern.len() ==> #[trigger] pattern[i] != '*'
}

/// Whether `text` has the length of `pattern` and each of its characters is one
/// that the pattern character at its place stands for.
pub open spec fn same_shape(pattern: Seq<char>, text: Seq<char>) -> bool {
    &&& pattern.len() == text.len()
    &&& forall|i: int| 0 <= i < pattern.len() ==> stands_for(#[trigger] pattern[i], text[i])
}

/// A pattern without asterisks matches character by character: exactly the texts
/// of its own length, any character at a question mark, and elsewhere the same
/// character, ASCII letters in either case.
pub proof fn law_fixed_pattern(pattern: Seq<char>, text: Seq<char>)
    requires
        is_fixed(pattern),
    ensures
        matches(pattern, text) == same_shape(pattern, text),
{
    let n = pattern.len() as int;
    assert(pattern.skip(0) == pattern && text.skip(0) == text);
    if matches(pattern, text) {
        lemma_plain_prefix(pattern, 0, n, text, 0);
        lemma_fits_step(pattern, n, text, n);
        lemma_prefix_shape(pattern, n, text);
    }
    if same_shape(pattern, text) {
        assert(segment_fits(pattern, 0, n, text, 0));
        lemma_segment(pattern, 0, n, text, 0);
        lemma_fits_step(pattern, n, text, n);
    }
}

/// The fixed beginning of a pattern that matches stands for the beginning of the
/// text.
proof fn lemma_prefix_shape(pattern: Seq<char>, k: int, text: Seq<char>)
    requires
        0 <= k <= pattern.len(),
        forall|x: int| 0 <= x < k ==> #[trigger] pattern[x] != '*',
        fits(pattern, 0, text, 0),
    ensures
        k <= text.len(),
        segment_fits(pattern, 0, k, text, 0),
        fits(pattern, k, text, k),
    decreases k,
{
    if k > 0 {
        lemma_prefix_shape(pattern, k - 1, text);
        lemma_fits_step(pattern, k - 1, text, k - 1);
        assert(pattern[k - 1] != '*');
    }
}

/// A single asterisk matches every text.
pub proof fn law_asterisk_matches_everything(text: Seq<char>)
    ensures
        matches(seq!['*'], text),
    decreases text.len(),
{
    if text.len() > 0 {
        law_asterisk_matches_everything(text.drop_first());
    } else {
        assert(seq!['*'].drop_first() == Seq::<char>::empty());
        assert(matches(Seq::<char>::empty(), text));
    }
}

/// A pattern with one asterisk between two fixed parts matches exactly the texts
/// that begin with the first part and end with the second, without overlap.
pub proof fn law_prefix_and_suffix(prefix: Seq<char>, suffix: Seq<char>, text: Seq<char>)
    requires
        is_fixed(prefix),
        is_fixed(suffix),
    ensures
        matches(prefix + seq!['*'] + suffix, text) == (prefix.len() + suffix.len() <= text.len()
            && same_shape(prefix, text.take(prefix.len() as int)) && same_shape(
            suffix,
            text.skip(text.len() - suffix.len()),
        )),
{
    let pattern = prefix + seq!['*'] + suffix;
    let a = prefix.len() as int;
    let n = pattern.len() as int;
    let b = text.len() - suffix.len();
    assert(pattern.skip(0) == pattern && text.skip(0) == text);
    assert(pattern[a] == '*');
    assert(forall|x: int| 0 <= x < a ==> pattern[x] == prefix[x]);
    assert(forall|x: int| a + 1 <= x < n ==> #[trigger] pattern[x] == suffix[x - (a + 1)]);
    assert(pattern.skip(a + 1) == suffix);
    if matches(pattern, text) {
        lemma_prefix_shape(pattern, a, text);
        let at = lemma_star_choice(pattern, a, text, a);
        law_fixed_pattern(suffix, text.skip(at));
        assert(text.skip(at) == text.skip(b));
        let head = text.take(a);
        assert forall|i: int| 0 <= i < a implies stands_for(#[trigger] prefix[i], head[i]) by {
            assert(pattern[i] == prefix[i]);
        }
        assert(same_shape(prefix, head));
    }
    if prefix.len() + suffix.len() <= text.len() && same_shape(prefix, text.take(a)) && same_shape(
        suffix,
        text.skip(b),
    ) {
        assert forall|x: int| 0 <= x < a implies #[trigger] pattern[x] != '*' && stands_for(
            pattern[x],
            text[0 + (x - 0)],
        ) by {
            assert(prefix[x] == pattern[x]);
            assert(text.take(a)[x] == text[x]);
        }
        lemma_segment(pattern, 0, a, text, 0);
        law_fixed_pattern(suffix, text.skip(b));
        lemma_fits_step(pattern, a, text, b);
        lemma_star_absorbs(pattern, a, text, a, b);
    }
}

/// Upper and lower case ASCII letters are interchangeable in pattern and text.
pub proof fn law_case_does_not_matter(pattern: Seq<char>, text: Seq<char>)
    ensures
        matches(text::ascii_lowered(pattern), text::ascii_lowered(text)) == matches(pattern, text),
    decreases pattern.len() + text.len(),
{
    let lp = text::ascii_lowered(pattern);
    let lt = text::ascii_lowered(text);
    if pattern.len() > 0 {
        assert(lp.drop_first() == text::ascii_lowered(pattern.drop_first()));
        law_case_does_not_matter(pattern.drop_first(), text);
        if text.len() > 0 {
            assert(lt.drop_first() == text::ascii_lowered(text.drop_first()));
            law_case_does_not_matter(pattern, text.drop_first());
            law_case_does_not_matter(pattern.drop_first(), text.drop_first());
        }
    }
}

/// What a pattern character other than an asterisk stands for: a question mark for any
/// character, any other one for itself, and a letter from A to Z in either case.
proof fn lemma_stands_for(p: char, c: char)
    ensures
        stands_for(p, c) == {
            ||| p == '?'
            ||| p == c
            ||| 'A' <= p && p <= 'Z' && c as int == p as int + 32
            ||| 'A' <= c && c <= 'Z' && p as int == c as int + 32
        },
{
}

/// An empty pattern fits the empty text alone. A pattern that begins with an asterisk
/// fits where the rest of it does, or where it fits what is left of the text without the
/// first character. A pattern that begins otherwise fits where its first character
/// stands for the first one of the text and the rest of it fits what is left.
pub proof fn law_matching_goes_character_by_character(
    patterns: (&str, &str),
    texts: (&str, &str),
    r: (bool, bool, bool, bool),
)
    requires
        call_ensures(wildcard_match, (patterns.0, texts.0), r.0),
        call_ensures(wildcard_match, (patterns.1, texts.0), r.1),
        call_ensures(wildcard_match, (patterns.0, texts.1), r.2),
        call_ensures(wildcard_match, (patterns.1, texts.1), r.3),
        patterns.0@.len() > 0 ==> patterns.1@ == patterns.0@.skip(1),
        texts.0@.len() > 0 ==> texts.1@ == texts.0@.skip(1),
    ensures
        patterns.0@.len() == 0 ==> r.0 == (texts.0@.len() == 0),
        patterns.0@.len() > 0 && patterns.0@[0] == '*' ==> r.0 == (r.1 || (texts.0@.len() > 0
            && r.2)),
        patterns.0@.len() > 0 && patterns.0@[0] != '*' ==> r.0 == (texts.0@.len() > 0 && ({
            let (p, c) = (patterns.0@[0], texts.0@[0]);
            ||| p == '?'
            ||| p == c
            ||| 'A' <= p && p <= 'Z' && c as int == p as int + 32
            ||| 'A' <= c && c <= 'Z' && p as int == c as int + 32
        }) && r.3),
{
    let (p, t) = (patterns.0@, texts.0@);
    if p.len() > 0 {
        assert(p.drop_first() == p.skip(1));
        if t.len() > 0 {
            assert(t.drop_first() == t.skip(1));
            lemma_stands_for(p[0], t[0]);
        }
    }
}

/// A pattern without wildcards fits a text of the same length whose characters are the
/// same at every place but for the case of letters from A to Z, and no other text.
pub proof fn law_plain_pattern_is_the_text(pattern: &str, text: &str, r: bool)
    requires
        call_ensures(wildcard_match, (pattern, text), r),
        forall|i: int|
            0 <= i < pattern@.len() ==> #[trigger] pattern@[i] != '*' && pattern@[i] != '?',
    ensures
        pattern@ == text@ ==> r,
        r == (pattern@.len() == text@.len() && forall|i: int|
            0 <= i < pattern@.len() ==> {
                ||| #[trigger] pattern@[i] == text@[i]
                ||| 'A' <= pattern@[i] && pattern@[i] <= 'Z' && text@[i] as int == pattern@[i] as int
                    + 32
                ||| 'A' <= text@[i] && text@[i] <= 'Z' && pattern@[i] as int == text@[i] as int + 32
            }),
{
    let (p, t) = (pattern@, text@);
    assert forall|i: int| 0 <= i < p.len() implies #[trigger] p[i] != '*' by {
        assert(pattern@[i] != '*');
    }
    law_fixed_pattern(p, t);
    assert forall|i: int| 0 <= i < p.len() implies stands_for(#[trigger] p[i], t[i]) == {
        ||| p[i] == t[i]
        ||| 'A' <= p[i] && p[i] <= 'Z' && t[i] as int == p[i] as int + 32
        ||| 'A' <= t[i] && t[i] <= 'Z' && p[i] as int == t[i] as int + 32
    } by {
        lemma_stands_for(p[i], t[i]);
        assert(pattern@[i] != '?');
    }
}

/// A pattern of an asterisk, a plain text and an asterisk fits the texts that hold the
/// plain text somewhere.
pub proof fn law_asterisks_around_find_a_part(
    pattern: &str,
    text: &str,
    before: Seq<char>,
    part: Seq<char>,
    after: Seq<char>,
    r: bool,
)
    requires
        call_ensures(wildcard_match, (pattern, text), r),
        pattern@ == seq!['*'] + part + seq!['*'],
        text@ == before + part + after,
        forall|i: int| 0 <= i < part.len() ==> #[trigger] part[i] != '*',
    ensures
        r,
{
    let (p, t) = (pattern@, text@);
    let (a, n) = (before.len() as int, part.len() as int);
    assert(p.skip(0) == p && t.skip(0) == t);
    assert(p[0] == '*' && p[n + 1] == '*');
    assert forall|x: int| 1 <= x < n + 1 implies #[trigger] p[x] != '*' && stands_for(
        p[x],
        t[a + (x - 1)],
    ) by {
        assert(p[x] == part[x - 1]);
        assert(t[a + (x - 1)] == part[x - 1]);
    }
    assert(p.skip(n + 2) == Seq::<char>::empty());
    let end = t.len() as int;
    assert(t.skip(end) == Seq::<char>::empty());
    lemma_fits_step(p, n + 2, t, end);
    lemma_fits_step(p, n + 1, t, end);
    lemma_star_absorbs(p, n + 1, t, a + n, end);
    lemma_segment(p, 1, n + 1, t, a);
    lemma_fits_step(p, 0, t, a);
    lemma_star_absorbs(p, 0, t, 0, a);
}

/// Only the letters from A to Z change in lower case, each by 32.
pub proof fn law_only_capital_letters_are_lowered(c: char, r: char)
    requires
        call_ensures(to_ascii_lower, (c,), r),
    ensures
        'A' <= c && c <= 'Z' ==> r as int == c as int + 32,
        !('A' <= c && c <= 'Z') ==> r == c,
{
}

} // verus!
