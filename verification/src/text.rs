//! Text primitives: characters in and out of strings, trimming, splitting and
//! decimal numbers.
use vstd::prelude::*;

verus! {

/// `String::push` appends the given character to the end of the string.
pub assume_specification[ String::push ](s: &mut String, c: char)
    ensures
        final(s)@ == old(s)@.push(c),
;

/// The text that `str::to_lowercase` makes of `s`: every character in its
/// Unicode lower case form.
pub uninterp spec fn lowercase(s: Seq<char>) -> Seq<char>;

/// Whether every character of `s` is an ASCII character.
pub open spec fn is_ascii_text(s: Seq<char>) -> bool {
    forall|i: int| 0 <= i < s.len() ==> (#[trigger] s[i] as u32) < 0x80
}

/// `c` with an ASCII upper case letter turned into its lower case form.
pub open spec fn ascii_lower(c: char) -> char {
    if 'A' <= c <= 'Z' {
        (c as u32 + 32) as char
    } else {
        c
    }
}

/// `s` with its ASCII upper case letters turned into their lower case forms.
pub open spec fn ascii_lowered(s: Seq<char>) -> Seq<char> {
    Seq::new(s.len(), |i: int| ascii_lower(s[i]))
}

/// `str::to_lowercase` returns the lower case equivalent of the text, which is
/// determined by the text alone; on ASCII text it changes the letters `A` to `Z`
/// and nothing else.
pub assume_specification[ str::to_lowercase ](s: &str) -> (r: String)
    ensures
        r@ == lowercase(s@),
        is_ascii_text(s@) ==> r@ == ascii_lowered(s@),
;

/// Collects the characters of `s`.
pub fn to_chars(s: &str) -> (chars: Vec<char>)
    ensures
        chars@ == s@,
{
    let mut chars: Vec<char> = Vec::new();
    for c in iter: s.chars()
        invariant
            iter.seq() == s@,
            chars@ == s@.take(iter.index() as int),
    {
        chars.push(c);
    }
    chars
}

/// Builds the string that holds exactly `chars`.
pub fn from_chars(chars: &[char]) -> (s: String)
    ensures
        s@ == chars@,
{
    let mut s: String = String::new();
    let mut i: usize = 0;
    while i < chars.len()
        invariant
            i <= chars@.len(),
            s@ == chars@.take(i as int),
        decreases chars@.len() - i,
    {
        s.push(chars[i]);
        i = i + 1;
    }
    s
}

/// The sets of characters that text is cut at or trimmed of.
#[derive(Debug, Clone, Copy, PartialEq, Eq)]
pub enum CharClass {
    /// The Unicode property `White_Space`.
    Whitespace,
    /// Single and double quotation marks.
    Quote,
    /// The comma and the semicolon, which separate the entries of a list.
    ListSeparator,
    /// The characters that end an unquoted field of a CSV record.
    FieldEnd,
    /// The slash and the backslash, which separate the components of a path.
    PathSeparator,
    /// One given character.
    One(char),
}

impl CharClass {
    /// Whether `c` belongs to the class.
    pub open spec fn has(self, c: char) -> bool {
        match self {
            CharClass::Whitespace => is_whitespace(c),
            CharClass::Quote => c == '"' || c == '\'',
            CharClass::ListSeparator => c == ',' || c == ';',
            CharClass::FieldEnd => c == ',' || c == '\n' || c == '\r',
            CharClass::PathSeparator => c == '/' || c == '\\',
            CharClass::One(d) => c == d,
        }
    }

    /// Tests whether `c` belongs to the class.
    pub fn contains(&self, c: char) -> (b: bool)
        ensures
            b == self.has(c),
    {
        match *self {
            CharClass::Whitespace => white_space(c),
            CharClass::Quote => c == '"' || c == '\'',
            CharClass::ListSeparator => c == ',' || c == ';',
            CharClass::FieldEnd => c == ',' || c == '\n' || c == '\r',
            CharClass::PathSeparator => c == '/' || c == '\\',
            CharClass::One(d) => c == d,
        }
    }
}

/// The characters with the Unicode property `White_Space`.
pub open spec fn is_whitespace(c: char) -> bool {
    let n = c as u32;
    ||| 0x9 <= n <= 0xd
    ||| n == 0x20
    ||| n == 0x85
    ||| n == 0xa0
    ||| n == 0x1680
    ||| 0x2000 <= n <= 0x200a
    ||| n == 0x2028
    ||| n == 0x2029
    ||| n == 0x202f
    ||| n == 0x205f
    ||| n == 0x3000
}

/// Tests whether `c` is white space.
pub fn white_space(c: char) -> (b: bool)
    ensures
        b == is_whitespace(c),
{
    let n: u32 = c as u32;
    (0x9 <= n && n <= 0xd) || n == 0x20 || n == 0x85 || n == 0xa0 || n == 0x1680 || (0x2000 <= n
        && n <= 0x200a) || n == 0x2028 || n == 0x2029 || n == 0x202f || n == 0x205f || n == 0x3000
}

/// `s` without its longest prefix of characters of `class`.
pub open spec fn trim_start(s: Seq<char>, class: CharClass) -> Seq<char>
    decreases s.len(),
{
    if s.len() > 0 && class.has(s[0]) {
        trim_start(s.drop_first(), class)
    } else {
        s
    }
}

/// `s` without its longest suffix of characters of `class`.
pub open spec fn trim_end(s: Seq<char>, class: CharClass) -> Seq<char>
    decreases s.len(),
{
    if s.len() > 0 && class.has(s.last()) {
        trim_end(s.drop_last(), class)
    } else {
        s
    }
}

/// `s` without the characters of `class` at either end.
pub open spec fn trimmed(s: Seq<char>, class: CharClass) -> Seq<char> {
    trim_end(trim_start(s, class), class)
}

/// Trimming the end leaves a beginning.
pub proof fn lemma_trim_end_prefix(s: Seq<char>, class: CharClass)
    ensures
        trim_end(s, class).is_prefix_of(s),
    decreases s.len(),
{
    if s.len() > 0 && class.has(s.last()) {
        lemma_trim_end_prefix(s.drop_last(), class);
    }
}

/// Trimming the end of two pieces trims the second, and the first only where
/// nothing is left of the second.
pub proof fn lemma_trim_end_concat(a: Seq<char>, b: Seq<char>, class: CharClass)
    ensures
        trim_end(a + b, class) == (if trim_end(b, class).len() > 0 {
            a + trim_end(b, class)
        } else {
            trim_end(a, class)
        }),
    decreases b.len(),
{
    if b.len() == 0 {
        assert(a + b == a);
    } else if class.has(b.last()) {
        assert((a + b).drop_last() == a + b.drop_last());
        lemma_trim_end_concat(a, b.drop_last(), class);
    }
}

/// Trimming the start does not care whether the end was trimmed before.
proof fn lemma_trim_order(s: Seq<char>, class: CharClass)
    ensures
        trim_start(trim_end(s, class), class) == trim_end(trim_start(s, class), class),
    decreases s.len(),
{
    if s.len() > 0 && class.has(s[0]) {
        let head = seq![s[0]];
        let tail = s.drop_first();
        assert(head + tail == s);
        lemma_trim_order(tail, class);
        lemma_trim_end_concat(head, tail, class);
        if trim_end(tail, class).len() > 0 {
            assert((head + trim_end(tail, class)).drop_first() == trim_end(tail, class));
        } else {
            assert(head.drop_last() == Seq::<char>::empty());
            assert(trim_end(Seq::<char>::empty(), class) == Seq::<char>::empty());
            assert(trim_end(head, class) == Seq::<char>::empty());
            assert(trim_end(tail, class) == Seq::<char>::empty());
        }
    } else {
        lemma_trim_end_prefix(s, class);
        let e = trim_end(s, class);
        if e.len() > 0 {
            assert(e[0] == s[0]);
        }
    }
}

/// Trimming the end twice changes nothing.
proof fn lemma_trim_end_twice(s: Seq<char>, class: CharClass)
    ensures
        trim_end(trim_end(s, class), class) == trim_end(s, class),
    decreases s.len(),
{
    if s.len() > 0 && class.has(s.last()) {
        lemma_trim_end_twice(s.drop_last(), class);
    }
}

/// Trimming does not care whether the end was trimmed before.
pub proof fn lemma_trimmed_trim_end(s: Seq<char>, class: CharClass)
    ensures
        trimmed(trim_end(s, class), class) == trimmed(s, class),
{
    lemma_trim_order(s, class);
    lemma_trim_end_twice(trim_start(s, class), class);
}

/// Cuts the characters of `class` off both ends of `s`.
pub fn trim<'a>(s: &'a [char], class: CharClass) -> (r: &'a [char])
    ensures
        r@ == trimmed(s@, class),
{
    let n: usize = s.len();
    let mut start: usize = 0;
    assert(s@.skip(0) == s@);
    while start < n && class.contains(s[start])
        invariant
            start <= n == s@.len(),
            trim_start(s@, class) == trim_start(s@.skip(start as int), class),
        decreases n - start,
    {
        assert(s@.skip(start as int).drop_first() == s@.skip(start + 1));
        start = start + 1;
    }
    let ghost rest = s@.skip(start as int);
    let mut end: usize = n;
    assert(s@.subrange(start as int, n as int) == rest);
    while start < end && class.contains(s[end - 1])
        invariant
            start <= end <= n == s@.len(),
            trim_end(rest, class) == trim_end(s@.subrange(start as int, end as int), class),
        decreases end - start,
    {
        let ghost cur = s@.subrange(start as int, end as int);
        assert(cur.last() == s@[end - 1]);
        assert(cur.drop_last() == s@.subrange(start as int, end - 1));
        end = end - 1;
    }
    let ghost cur = s@.subrange(start as int, end as int);
    assert(cur.len() > 0 ==> cur.last() == s@[end - 1]);
    vstd::slice::slice_subrange(s, start, end)
}

/// The first position from `from` on that holds a character of `class`, or the
/// length of `s`.
pub open spec fn find_from(s: Seq<char>, class: CharClass, from: int) -> int
    decreases s.len() - from,
{
    if from >= s.len() {
        s.len() as int
    } else if class.has(s[from]) {
        from
    } else {
        find_from(s, class, from + 1)
    }
}

/// What `find_from` finds: the nearest character of the class, if there is one.
pub proof fn lemma_find_from(s: Seq<char>, class: CharClass, from: int)
    requires
        0 <= from <= s.len(),
    ensures
        from <= find_from(s, class, from) <= s.len(),
        forall|i: int| from <= i < find_from(s, class, from) ==> !class.has(#[trigger] s[i]),
        find_from(s, class, from) < s.len() ==> class.has(s[find_from(s, class, from)]),
    decreases s.len() - from,
{
    if from < s.len() && !class.has(s[from]) {
        lemma_find_from(s, class, from + 1);
    }
}

/// Looks for the first character of `class` from `from` on.
pub fn find(s: &[char], class: CharClass, from: usize) -> (k: usize)
    requires
        from <= s@.len(),
    ensures
        k == find_from(s@, class, from as int),
        from <= k <= s@.len(),
{
    proof {
        lemma_find_from(s@, class, from as int);
    }
    let mut i: usize = from;
    while i < s.len() && !class.contains(s[i])
        invariant
            from <= i <= s@.len(),
            find_from(s@, class, from as int) == find_from(s@, class, i as int),
        decreases s@.len() - i,
    {
        i = i + 1;
    }
    i
}

/// The pieces of `s` from `from` on between the characters of `class`. There is
/// always one piece more than there are such characters.
pub open spec fn split_from(s: Seq<char>, class: CharClass, from: int) -> Seq<Seq<char>>
    decreases s.len() - from,
{
    let k = find_from(s, class, from);
    if from <= k < s.len() {
        seq![s.subrange(from, k)] + split_from(s, class, k + 1)
    } else {
        seq![s.subrange(from, s.len() as int)]
    }
}

/// The pieces of `s` between the characters of `class`.
pub open spec fn split(s: Seq<char>, class: CharClass) -> Seq<Seq<char>> {
    split_from(s, class, 0)
}

/// A search finds the same place when more follows the text.
proof fn lemma_find_from_concat(a: Seq<char>, b: Seq<char>, class: CharClass, from: int)
    requires
        0 <= from <= a.len(),
        b.len() > 0,
        class.has(b[0]),
    ensures
        find_from(a + b, class, from) == find_from(a, class, from),
    decreases a.len() - from,
{
    if from < a.len() {
        assert((a + b)[from] == a[from]);
        lemma_find_from_concat(a, b, class, from + 1);
    } else {
        assert((a + b)[from] == b[0]);
    }
}

/// Splitting a tail of a text is splitting the tail.
proof fn lemma_split_skip(s: Seq<char>, class: CharClass, from: int, skip: int)
    requires
        0 <= skip <= from <= s.len(),
    ensures
        find_from(s, class, from) == find_from(s.skip(skip), class, from - skip) + skip,
        split_from(s, class, from) == split_from(s.skip(skip), class, from - skip),
    decreases s.len() - from,
{
    lemma_find_skip(s, class, from, skip);
    lemma_find_from(s, class, from);
    let k = find_from(s, class, from);
    let t = s.skip(skip);
    if k < s.len() {
        lemma_split_skip(s, class, k + 1, skip);
        assert(s.subrange(from, k) == t.subrange(from - skip, k - skip));
    } else {
        assert(s.subrange(from, s.len() as int) == t.subrange(from - skip, t.len() as int));
    }
}

/// Searching a tail of a text is searching the tail.
pub proof fn lemma_find_skip(s: Seq<char>, class: CharClass, from: int, skip: int)
    requires
        0 <= skip <= from <= s.len(),
    ensures
        find_from(s, class, from) == find_from(s.skip(skip), class, from - skip) + skip,
    decreases s.len() - from,
{
    if from < s.len() {
        assert(s.skip(skip)[from - skip] == s[from]);
        lemma_find_skip(s, class, from + 1, skip);
    }
}

/// The pieces from `from` on of two texts with a separator between them.
proof fn lemma_split_from_concat(
    a: Seq<char>,
    sep: char,
    b: Seq<char>,
    class: CharClass,
    from: int,
)
    requires
        class.has(sep),
        0 <= from <= a.len(),
    ensures
        split_from(a.push(sep) + b, class, from) == split_from(a, class, from) + split(b, class),
    decreases a.len() - from,
{
    let s = a.push(sep) + b;
    assert(s == a + (seq![sep] + b));
    lemma_find_from_concat(a, seq![sep] + b, class, from);
    lemma_find_from(a, class, from);
    let k = find_from(a, class, from);
    assert(s.subrange(from, k) == a.subrange(from, k));
    if k < a.len() {
        lemma_split_from_concat(a, sep, b, class, k + 1);
        assert(split_from(s, class, from) == seq![a.subrange(from, k)] + (split_from(
            a,
            class,
            k + 1,
        ) + split(b, class)));
        assert(split_from(a, class, from) + split(b, class) == seq![a.subrange(from, k)] + (
        split_from(a, class, k + 1) + split(b, class)));
    } else {
        lemma_split_skip(s, class, k + 1, k + 1);
        assert(s.skip(k + 1) == b);
    }
}

/// The pieces of two texts with a separator between them are the pieces of both.
pub proof fn lemma_split_concat(a: Seq<char>, sep: char, b: Seq<char>, class: CharClass)
    requires
        class.has(sep),
    ensures
        split(a.push(sep) + b, class) == split(a, class) + split(b, class),
{
    lemma_split_from_concat(a, sep, b, class, 0);
}

/// The character sequences that a list of vectors holds.
pub open spec fn pieces(parts: Seq<Vec<char>>) -> Seq<Seq<char>> {
    Seq::new(parts.len(), |i: int| parts[i]@)
}

/// The texts that a list of strings holds.
pub open spec fn texts(list: Seq<String>) -> Seq<Seq<char>> {
    Seq::new(list.len(), |i: int| list[i]@)
}

/// Cuts `s` at the characters of `class`.
pub fn split_at(s: &[char], class: CharClass) -> (parts: Vec<Vec<char>>)
    ensures
        pieces(parts@) == split(s@, class),
{
    let mut parts: Vec<Vec<char>> = Vec::new();
    let mut from: usize = 0;
    assert(pieces(parts@) + split_from(s@, class, 0) == split(s@, class));
    loop
        invariant_except_break
            from <= s@.len(),
            pieces(parts@) + split_from(s@, class, from as int) == split(s@, class),
        ensures
            pieces(parts@) == split(s@, class),
        decreases s@.len() - from,
    {
        let k: usize = find(s, class, from);
        let part: Vec<char> = vstd::slice::slice_to_vec(
            vstd::slice::slice_subrange(s, from, k),
        );
        let ghost before = parts@;
        parts.push(part);
        assert(pieces(parts@) == pieces(before).push(part@));
        if k >= s.len() {
            assert(pieces(before) + seq![part@] == pieces(before).push(part@));
            break;
        }
        assert(pieces(before) + (seq![part@] + split_from(s@, class, k + 1)) == pieces(before).push(
            part@,
        ) + split_from(s@, class, k + 1));
        from = k + 1;
    }
    parts
}

/// The texts of `list` one after the other, with `sep` between them.
pub open spec fn joined(list: Seq<Seq<char>>, sep: Seq<char>) -> Seq<char>
    decreases list.len(),
{
    if list.len() == 0 {
        Seq::empty()
    } else if list.len() == 1 {
        list[0]
    } else {
        joined(list.drop_last(), sep) + sep + list.last()
    }
}

/// Puts the texts of `list` together, with `sep` between them.
pub fn join(list: &[String], sep: &str) -> (s: String)
    ensures
        s@ == joined(texts(list@), sep@),
{
    let ghost all = texts(list@);
    let mut s: String = String::new();
    let mut i: usize = 0;
    while i < list.len()
        invariant
            all == texts(list@),
            i <= all.len() == list@.len(),
            s@ == joined(all.take(i as int), sep@),
        decreases all.len() - i,
    {
        if i > 0 {
            s.append(sep);
        }
        s.append(list[i].as_str());
        assert(all.take(i + 1).drop_last() == all.take(i as int));
        assert(all.take(i + 1).last() == list@[i as int]@);
        i = i + 1;
    }
    assert(all.take(i as int) == all);
    s
}

/// Compares two texts character by character.
pub fn same_text(a: &str, b: &str) -> (same: bool)
    ensures
        same == (a@ == b@),
{
    let x: Vec<char> = to_chars(a);
    let y: Vec<char> = to_chars(b);
    same_chars(&x, &y)
}

/// Compares two character sequences.
pub fn same_chars(a: &[char], b: &[char]) -> (same: bool)
    ensures
        same == (a@ == b@),
{
    if a.len() != b.len() {
        return false;
    }
    let mut i: usize = 0;
    while i < a.len()
        invariant
            i <= a@.len() == b@.len(),
            forall|j: int| 0 <= j < i ==> a@[j] == b@[j],
        decreases a@.len() - i,
    {
        if a[i] != b[i] {
            return false;
        }
        i = i + 1;
    }
    assert(a@ == b@);
    true
}

/// Whether `c` is one of the ten ASCII digits.
pub open spec fn is_digit(c: char) -> bool {
    '0' <= c <= '9'
}

/// The value of a sequence of ASCII digits, most significant first.
pub open spec fn digits_value(s: Seq<char>) -> nat
    decreases s.len(),
{
    if s.len() == 0 {
        0
    } else {
        (digits_value(s.drop_last()) * 10 + (s.last() as u32 - '0' as u32)) as nat
    }
}

/// Whether every character of `s` is an ASCII digit.
pub open spec fn all_digits(s: Seq<char>) -> bool {
    forall|i: int| 0 <= i < s.len() ==> is_digit(#[trigger] s[i])
}

/// `s` without the plus sign that a number may begin with.
pub open spec fn unsigned_digits(s: Seq<char>) -> Seq<char> {
    if s.len() > 0 && s[0] == '+' {
        s.skip(1)
    } else {
        s
    }
}

/// The number up to `max` that `s` writes down: an optional plus sign and one
/// or more digits.
pub open spec fn parsed(s: Seq<char>, max: nat) -> Option<nat> {
    let d = unsigned_digits(s);
    if d.len() > 0 && all_digits(d) && digits_value(d) <= max {
        Some(digits_value(d))
    } else {
        None
    }
}

/// A prefix of digits is worth no more than the whole.
proof fn lemma_digits_prefix(s: Seq<char>, n: int)
    requires
        0 <= n <= s.len(),
        all_digits(s),
    ensures
        digits_value(s.take(n)) <= digits_value(s),
    decreases s.len() - n,
{
    if n < s.len() {
        lemma_digits_prefix(s, n + 1);
        assert(s.take(n + 1).drop_last() == s.take(n));
        assert(is_digit(s[n]));
    } else {
        assert(s.take(n) == s);
    }
}

/// Reads a `u64` from its decimal digits.
pub fn parse_u64(s: &[char]) -> (r: Option<u64>)
    ensures
        match r {
            Some(v) => parsed(s@, u64::MAX as nat) == Some(v as nat),
            None => parsed(s@, u64::MAX as nat) is None,
        },
{
    let n: usize = s.len();
    let start: usize = if n > 0 && s[0] == '+' {
        1
    } else {
        0
    };
    let ghost d = unsigned_digits(s@);
    assert(d == s@.subrange(start as int, n as int));
    if start == n {
        return None;
    }
    let mut value: u64 = 0;
    let mut i: usize = start;
    assert(d.take(0) == Seq::<char>::empty());
    while i < n
        invariant
            start <= i <= n == s@.len(),
            d == s@.subrange(start as int, n as int),
            d == unsigned_digits(s@),
            d.len() > 0,
            value == digits_value(d.take(i - start)),
            forall|j: int| 0 <= j < i - start ==> is_digit(#[trigger] d[j]),
        decreases n - i,
    {
        let c: char = s[i];
        assert(d[i - start] == c);
        if !('0' <= c && c <= '9') {
            return None;
        }
        let digit: u64 = (c as u32 - '0' as u32) as u64;
        assert(d.take(i - start + 1).drop_last() == d.take(i - start));
        assert(digits_value(d.take(i - start + 1)) == value * 10 + digit);
        proof {
            if all_digits(d) {
                lemma_digits_prefix(d, i - start + 1);
            }
        }
        match value.checked_mul(10) {
            None => {
                return None;
            },
            Some(shifted) => match shifted.checked_add(digit) {
                None => {
                    return None;
                },
                Some(next) => {
                    value = next;
                },
            },
        }
        i = i + 1;
    }
    assert(d.take(n - start) == d);
    Some(value)
}

/// Reads a `u32` from its decimal digits.
pub fn parse_u32(s: &[char]) -> (r: Option<u32>)
    ensures
        match r {
            Some(v) => parsed(s@, u32::MAX as nat) == Some(v as nat),
            None => parsed(s@, u32::MAX as nat) is None,
        },
{
    match parse_u64(s) {
        Some(v) => if v <= u32::MAX as u64 {
            Some(v as u32)
        } else {
            None
        },
        None => None,
    }
}

/// The character of a decimal digit.
pub open spec fn digit_char(d: nat) -> char
    recommends
        d < 10,
{
    (d + '0' as u32) as char
}

/// The decimal notation of `n`, without leading zeros.
pub open spec fn decimal(n: nat) -> Seq<char>
    decreases n,
{
    if n < 10 {
        seq![digit_char(n)]
    } else {
        decimal(n / 10).push(digit_char(n % 10))
    }
}

/// The decimal notation of `n`, filled up with zeros on the left to at least
/// `width` digits.
pub open spec fn zero_padded(n: nat, width: nat) -> Seq<char> {
    let d = decimal(n);
    if d.len() < width {
        Seq::new((width - d.len()) as nat, |i: int| '0') + d
    } else {
        d
    }
}

/// Picks the character of a decimal digit.
fn char_of_digit(d: u64) -> (c: char)
    requires
        d < 10,
    ensures
        c == digit_char(d as nat),
{
    (d as u8 + 48u8) as char
}

/// Appends the decimal notation of `n` to `out`.
pub fn push_decimal(out: &mut String, n: u64)
    ensures
        final(out)@ == old(out)@ + decimal(n as nat),
    decreases n,
{
    if n >= 10 {
        push_decimal(out, n / 10);
    }
    out.push(char_of_digit(n % 10));
    assert(out@ == old(out)@ + decimal(n as nat));
}

/// The decimal notation of `n`.
pub fn decimal_string(n: u64) -> (s: String)
    ensures
        s@ == decimal(n as nat),
{
    let mut s: String = String::new();
    push_decimal(&mut s, n);
    s
}

/// Appends `n` with at least `width` digits to `out`.
pub fn push_padded(out: &mut String, n: u64, width: usize)
    ensures
        final(out)@ == old(out)@ + zero_padded(n as nat, width as nat),
{
    let digits: String = decimal_string(n);
    let len: usize = to_chars(digits.as_str()).len();
    let mut written: usize = len;
    while written < width
        invariant
            len <= written,
            len < width ==> written <= width,
            len >= width ==> written == len,
            out@ == old(out)@ + Seq::new((written - len) as nat, |i: int| '0'),
        decreases width - written,
    {
        out.push('0');
        written = written + 1;
    }
    out.append(digits.as_str());
    assert(out@ == old(out)@ + zero_padded(n as nat, width as nat));
}

/// The decimal notation of `n` consists of digits, and its value is `n`.
pub proof fn lemma_decimal(n: nat)
    ensures
        decimal(n).len() >= 1,
        all_digits(decimal(n)),
        digits_value(decimal(n)) == n,
    decreases n,
{
    if n >= 10 {
        lemma_decimal(n / 10);
        assert(decimal(n).drop_last() == decimal(n / 10));
    } else {
        let d = decimal(n);
        assert(d.drop_last() == Seq::<char>::empty());
        assert(digits_value(d.drop_last()) == 0);
    }
}

/// Reading back the decimal notation of a number gives the number.
pub proof fn law_decimal_reads_back(n: nat, max: nat)
    requires
        n <= max,
    ensures
        parsed(decimal(n), max) == Some(n),
{
    lemma_decimal(n);
    assert(is_digit(decimal(n)[0]));
}

/// Different numbers have different decimal notations.
pub proof fn law_decimal_is_injective(m: nat, n: nat)
    requires
        decimal(m) == decimal(n),
    ensures
        m == n,
{
    lemma_decimal(m);
    lemma_decimal(n);
}

/// Which characters belong to which class.
pub proof fn law_classes_hold_their_characters(c: char, d: char, r: (bool, bool, bool, bool, bool))
    requires
        call_ensures(CharClass::contains, (&CharClass::Quote, c), r.0),
        call_ensures(CharClass::contains, (&CharClass::ListSeparator, c), r.1),
        call_ensures(CharClass::contains, (&CharClass::FieldEnd, c), r.2),
        call_ensures(CharClass::contains, (&CharClass::PathSeparator, c), r.3),
        call_ensures(CharClass::contains, (&CharClass::One(d), c), r.4),
    ensures
        r.0 <==> c == '"' || c == '\'',
        r.1 <==> c == ',' || c == ';',
        r.2 <==> c == ',' || c == '\n' || c == '\r',
        r.3 <==> c == '/' || c == '\\',
        r.4 <==> c == d,
{
}

/// White space are the five control characters from the tab to the carriage return, the
/// blank, the next line, the no-break space, and the blanks and separators of Unicode. No
/// visible ASCII character is.
pub proof fn law_white_space_is_invisible(c: char, r: (bool, bool))
    requires
        call_ensures(white_space, (c,), r.0),
        call_ensures(CharClass::contains, (&CharClass::Whitespace, c), r.1),
    ensures
        r.0 == r.1,
        ({
            let n = c as int;
            r.0 <==> {
                ||| n == 9 || n == 10 || n == 11 || n == 12 || n == 13 || n == 32
                ||| n == 133 || n == 160 || n == 5_760 || 8_192 <= n < 8_203
                ||| n == 8_232 || n == 8_233 || n == 8_239 || n == 8_287 || n == 12_288
            }
        }),
        c == ' ' || c == '\t' || c == '\n' || c == '\r' ==> r.0,
        '!' <= c <= '~' ==> !r.0,
{
}

/// Trimming takes away characters of the class at both ends, all of them and nothing
/// else: what is left stands in the text, only characters of the class stand around it,
/// and it neither begins nor ends with one.
pub proof fn law_trimming_takes_only_what_it_should(s: &[char], class: CharClass, r: &[char])
    requires
        call_ensures(trim, (s, class), r),
    ensures
        exists|i: int, j: int|
            {
                &&& 0 <= i <= j <= s@.len()
                &&& r@ == #[trigger] s@.subrange(i, j)
                &&& forall|k: int| 0 <= k < i ==> class.has(#[trigger] s@[k])
                &&& forall|k: int| j <= k < s@.len() ==> class.has(#[trigger] s@[k])
            },
        r@.len() > 0 ==> !class.has(r@[0]) && !class.has(r@.last()),
{
    let (i, j) = lemma_trimmed_place(s@, class);
    assert(r@ == s@.subrange(i, j));
}

/// Where the trimmed text stands.
pub proof fn lemma_trimmed_place(s: Seq<char>, class: CharClass) -> (r: (int, int))
    ensures
        0 <= r.0 <= r.1 <= s.len(),
        trimmed(s, class) == s.subrange(r.0, r.1),
        forall|k: int| 0 <= k < r.0 ==> class.has(#[trigger] s[k]),
        forall|k: int| r.1 <= k < s.len() ==> class.has(#[trigger] s[k]),
        r.0 < r.1 ==> !class.has(s[r.0]) && !class.has(s[r.1 - 1]),
    decreases s.len(),
{
    if s.len() > 0 && class.has(s[0]) {
        let rest = s.drop_first();
        let (i, j) = lemma_trimmed_place(rest, class);
        assert(rest.subrange(i, j) == s.subrange(i + 1, j + 1));
        assert forall|k: int| 0 <= k < i + 1 implies class.has(#[trigger] s[k]) by {
            if k > 0 {
                assert(rest[k - 1] == s[k]);
            }
        }
        assert forall|k: int| j + 1 <= k < s.len() implies class.has(#[trigger] s[k]) by {
            assert(rest[k - 1] == s[k]);
        }
        (i + 1, j + 1)
    } else {
        let j = lemma_trim_end_place(s, class);
        assert(s.subrange(0, j) == s.take(j));
        (0, j)
    }
}

/// Where a text ends whose end was trimmed.
proof fn lemma_trim_end_place(s: Seq<char>, class: CharClass) -> (j: int)
    ensures
        0 <= j <= s.len(),
        trim_end(s, class) == s.take(j),
        forall|k: int| j <= k < s.len() ==> class.has(#[trigger] s[k]),
        0 < j ==> !class.has(s[j - 1]),
    decreases s.len(),
{
    if s.len() > 0 && class.has(s.last()) {
        let j = lemma_trim_end_place(s.drop_last(), class);
        assert(s.drop_last().take(j) == s.take(j));
        assert forall|k: int| j <= k < s.len() implies class.has(#[trigger] s[k]) by {
            if k < s.len() - 1 {
                assert(s.drop_last()[k] == s[k]);
            }
        }
        j
    } else {
        assert(s.take(s.len() as int) == s);
        s.len() as int
    }
}

/// A text between two runs of characters of a class, which neither begins nor ends
/// with one, is what is left when it is trimmed.
pub proof fn lemma_trimmed_between(a: Seq<char>, x: Seq<char>, b: Seq<char>, class: CharClass)
    requires
        forall|i: int| 0 <= i < a.len() ==> class.has(#[trigger] a[i]),
        forall|i: int| 0 <= i < b.len() ==> class.has(#[trigger] b[i]),
        x.len() > 0 ==> !class.has(x[0]) && !class.has(x.last()),
    ensures
        trimmed(a + x + b, class) == x,
{
    let s = a + x + b;
    let (i, j) = lemma_trimmed_place(s, class);
    let (n, m) = (a.len() as int, (a.len() + x.len()) as int);
    assert forall|k: int| 0 <= k < n || m <= k < s.len() implies class.has(#[trigger] s[k]) by {
        if k < n {
            assert(s[k] == a[k]);
        } else {
            assert(s[k] == b[k - m]);
        }
    }
    if x.len() > 0 {
        assert(s[n] == x[0] && s[m - 1] == x.last());
        assert(i <= n) by {
            if i > n {
                assert(class.has(s[n]));
            }
        }
        assert(j >= m) by {
            if j < m {
                assert(class.has(s[m - 1]));
            }
        }
        assert(i == n && j == m);
        assert(s.subrange(n, m) == x);
    } else {
        if i < j {
            assert(class.has(s[i]));
        }
        assert(s.subrange(i, j) == x);
    }
}

/// A text without characters of a class is one piece.
pub proof fn lemma_split_one_piece(s: Seq<char>, class: CharClass)
    requires
        forall|i: int| 0 <= i < s.len() ==> !class.has(#[trigger] s[i]),
    ensures
        split(s, class) == seq![s],
{
    lemma_find_from(s, class, 0);
    assert(s.subrange(0, s.len() as int) == s);
}

/// Splitting cuts at every character of the class and nowhere else: no piece holds
/// one, and a text of two parts around one has the pieces of both.
#[verifier::spinoff_prover]
pub proof fn law_splitting_cuts_at_each_separator(
    whole: &[char],
    parts: (&[char], &[char]),
    class: CharClass,
    r: (Vec<Vec<char>>, Vec<Vec<char>>, Vec<Vec<char>>),
)
    requires
        call_ensures(split_at, (whole, class), r.0),
        call_ensures(split_at, (parts.0, class), r.1),
        call_ensures(split_at, (parts.1, class), r.2),
    ensures
        (forall|i: int| 0 <= i < whole@.len() ==> !class.has(#[trigger] whole@[i])) ==> r.0@.len()
            == 1 && r.0@[0]@ == whole@,
        forall|sep: char|
            class.has(sep) && whole@ == #[trigger] parts.0@.push(sep) + parts.1@ ==> {
                &&& r.0@.len() == r.1@.len() + r.2@.len()
                &&& forall|i: int| 0 <= i < r.1@.len() ==> (#[trigger] r.0@[i])@ == r.1@[i]@
                &&& forall|i: int|
                    0 <= i < r.2@.len() ==> (#[trigger] r.0@[r.1@.len() as int + i])@ == r.2@[i]@
            },
{
    if forall|i: int| 0 <= i < whole@.len() ==> !class.has(#[trigger] whole@[i]) {
        lemma_split_one_piece(whole@, class);
        let all = pieces(r.0@);
        assert(all == split(whole@, class));
        assert(all == seq![whole@]);
        assert(all.len() == 1 && all[0] == whole@);
        assert(all.len() == r.0@.len());
        assert(all[0] == r.0@[0]@);
    }
    assert forall|sep: char|
        class.has(sep) && whole@ == #[trigger] parts.0@.push(sep) + parts.1@ implies {
        &&& r.0@.len() == r.1@.len() + r.2@.len()
        &&& forall|i: int| 0 <= i < r.1@.len() ==> (#[trigger] r.0@[i])@ == r.1@[i]@
        &&& forall|i: int| 0 <= i < r.2@.len() ==> (#[trigger] r.0@[r.1@.len() as int + i])@ == r.2@[i]@
    } by {
        lemma_split_concat(parts.0@, sep, parts.1@, class);
        let (a, b) = (pieces(r.1@), pieces(r.2@));
        assert(pieces(r.0@) == a + b);
        assert forall|i: int| 0 <= i < r.1@.len() implies (#[trigger] r.0@[i])@ == r.1@[i]@ by {
            assert(pieces(r.0@)[i] == (a + b)[i]);
        }
        assert forall|i: int| 0 <= i < r.2@.len() implies (#[trigger] r.0@[r.1@.len() as int + i])@
            == r.2@[i]@ by {
            assert(pieces(r.0@)[r.1@.len() + i] == (a + b)[a.len() + i]);
        }
    }
}

/// A number is read digit by digit: one more digit makes it ten times as large and adds
/// the digit, unless no `u64` holds that. Anything but a digit makes it no number.
pub proof fn law_numbers_are_read_digit_by_digit(
    s: &[char],
    longer: &[char],
    c: char,
    r: (Option<u64>, Option<u64>),
)
    requires
        call_ensures(parse_u64, (s,), r.0),
        call_ensures(parse_u64, (longer,), r.1),
        longer@ == s@.push(c),
    ensures
        s@.len() == 0 ==> r.0 is None,
        s@.len() == 0 && '0' <= c <= '9' ==> r.1 == Some((c as u32 - '0' as u32) as u64),
        !('0' <= c <= '9') ==> r.1 is None,
        s@.len() > 0 && r.0 is None && s@ != seq!['+'] ==> r.1 is None,
        r.0 matches Some(v) ==> '0' <= c <= '9' ==> {
            let n = v * 10 + (c as u32 - '0' as u32);
            &&& n <= u64::MAX ==> r.1 == Some(n as u64)
            &&& n > u64::MAX ==> r.1 is None
        },
{
    let (d, e) = (unsigned_digits(s@), unsigned_digits(longer@));
    let n = s@.len() as int;
    assert(longer@[n] == c);
    if n == 0 {
        if c == '+' {
            assert(e.len() == 0);
        } else {
            assert(e == longer@);
            assert(e.drop_last() == Seq::<char>::empty());
            assert(digits_value(Seq::<char>::empty()) == 0);
            assert(e[0] == c);
        }
    } else {
        assert(longer@[0] == s@[0]);
        assert(e == d.push(c));
        assert(e.drop_last() == d);
        assert(e[d.len() as int] == c);
        if all_digits(e) {
            assert forall|i: int| 0 <= i < d.len() implies is_digit(#[trigger] d[i]) by {
                assert(e[i] == d[i]);
            }
        }
        if all_digits(d) && is_digit(c) {
            assert forall|i: int| 0 <= i < e.len() implies is_digit(#[trigger] e[i]) by {
                if i < d.len() {
                    assert(e[i] == d[i]);
                }
            }
        }
        if d.len() == 0 {
            assert(s@ == seq!['+']);
        }
    }
}

/// A plus sign before a number has no meaning, and a `u32` is a `u64` that is small
/// enough.
pub proof fn law_signs_and_widths_of_numbers(
    s: &[char],
    signed: &[char],
    r: (Option<u64>, Option<u64>, Option<u32>),
)
    requires
        call_ensures(parse_u64, (s,), r.0),
        call_ensures(parse_u64, (signed,), r.1),
        call_ensures(parse_u32, (s,), r.2),
        signed@ == seq!['+'] + s@,
    ensures
        s@.len() > 0 && s@[0] != '+' ==> r.1 == r.0,
        s@.len() > 0 && s@[0] == '+' ==> r.1 is None,
        r.0 is None ==> r.2 is None,
        r.0 matches Some(v) ==> {
            &&& v <= u32::MAX ==> r.2 == Some(v as u32)
            &&& v > u32::MAX ==> r.2 is None
        },
{
    assert(signed@.skip(1) == s@);
    if s@.len() > 0 && s@[0] == '+' {
        assert(!is_digit(unsigned_digits(signed@)[0]));
    }
}

/// A number is written with its last digit last and the rest before it. A digit alone
/// is the character of that value.
pub proof fn law_numbers_are_written_digit_by_digit(n: u64, s: (String, String))
    requires
        call_ensures(decimal_string, (n,), s.0),
        call_ensures(decimal_string, (n / 10,), s.1),
    ensures
        s.0@.len() > 0,
        s.0@.last() as int == '0' as int + n % 10,
        n < 10 ==> s.0@.len() == 1,
        n >= 10 ==> s.0@.drop_last() == s.1@,
{
    if n >= 10 {
        assert(s.0@.drop_last() == decimal((n / 10) as nat));
    }
}

/// A padded number is the number with zeros before it, as many as are wanting.
pub proof fn law_padding_fills_with_zeros(out: &mut String, n: u64, width: usize, s: String)
    requires
        call_ensures(push_padded, (out, n, width), ()),
        call_ensures(decimal_string, (n,), s),
    ensures
        ({
            let zeros = final(out)@.len() - old(out)@.len() - s@.len();
            &&& zeros == (if s@.len() < width {
                width - s@.len()
            } else {
                0
            })
            &&& final(out)@.take(old(out)@.len() as int) == old(out)@
            &&& final(out)@.skip(final(out)@.len() - s@.len()) == s@
            &&& forall|i: int|
                old(out)@.len() <= i < old(out)@.len() + zeros ==> #[trigger] final(out)@[i] == '0'
        }),
{
    let padded = zero_padded(n as nat, width as nat);
    assert(final(out)@ == old(out)@ + padded);
    assert(final(out)@.take(old(out)@.len() as int) == old(out)@);
    assert(final(out)@.skip(final(out)@.len() - s@.len()) == s@);
}

/// Texts are put together in order, with the separator between any two of them.
pub proof fn law_joining_keeps_each_text(list: &[String], more: &[String], sep: &str, s: (String, String))
    requires
        call_ensures(join, (list, sep), s.0),
        call_ensures(join, (more, sep), s.1),
        more@.len() == list@.len() + 1,
        forall|i: int| 0 <= i < list@.len() ==> (#[trigger] more@[i])@ == list@[i]@,
    ensures
        list@.len() == 0 ==> s.0@.len() == 0 && s.1@ == more@[0]@,
        list@.len() > 0 ==> s.1@ == s.0@ + sep@ + more@.last()@,
{
    let (a, b) = (texts(list@), texts(more@));
    assert(b.drop_last() == a);
    assert(b.last() == more@.last()@);
}

/// Texts and lists of characters are turned into each other without change, and two
/// texts are the same where they have the same characters.
pub proof fn law_texts_keep_their_characters(
    s: &str,
    chars: Vec<char>,
    list: &[char],
    t: String,
    other: &str,
    same: (bool, bool),
)
    requires
        call_ensures(to_chars, (s,), chars),
        call_ensures(from_chars, (list,), t),
        call_ensures(same_text, (s, other), same.0),
        call_ensures(same_chars, (list, list), same.1),
    ensures
        chars@ == s@,
        t@ == list@,
        same.0 <==> s@ == other@,
        same.1,
{
}

/// The first character of a class is found where one stands and none before it.
pub proof fn law_first_of_a_class_is_found(s: &[char], class: CharClass, from: usize, k: usize)
    requires
        call_ensures(find, (s, class, from), k),
        from <= s@.len(),
    ensures
        from <= k <= s@.len(),
        k < s@.len() ==> class.has(s@[k as int]),
        forall|i: int| from <= i < k ==> !class.has(#[trigger] s@[i]),
{
    lemma_find_from(s@, class, from as int);
}

/// A number is appended to a text as it is written alone.
pub proof fn law_number_is_appended(out: &mut String, n: u64, s: String)
    requires
        call_ensures(push_decimal, (out, n), ()),
        call_ensures(decimal_string, (n,), s),
    ensures
        final(out)@ == old(out)@ + s@,
{
}

} // verus!
