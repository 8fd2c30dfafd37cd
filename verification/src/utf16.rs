//! UTF-16 text, the form in which Windows takes and gives strings.
use vstd::prelude::*;

use crate::text::to_chars;

verus! {

/// Whether `n` is the number of a Unicode character.
pub open spec fn is_scalar(n: u32) -> bool {
    n <= 0x10ffff && !(0xd800 <= n <= 0xdfff)
}

/// `char::from_u32` returns the character with the given number, and `None` for
/// surrogates and numbers above the Unicode range.
pub assume_specification[ char::from_u32 ](i: u32) -> (c: Option<char>)
    ensures
        c == (if is_scalar(i) {
            Some(i as char)
        } else {
            None
        }),
;

/// Whether `u` is the first unit of a surrogate pair.
pub open spec fn is_high(u: u16) -> bool {
    0xd800 <= u <= 0xdbff
}

/// Whether `u` is the second unit of a surrogate pair.
pub open spec fn is_low(u: u16) -> bool {
    0xdc00 <= u <= 0xdfff
}

/// The number of the character that a surrogate pair stands for.
pub open spec fn pair_value(high: u16, low: u16) -> u32 {
    (0x10000 + (high - 0xd800) * 0x400 + (low - 0xdc00)) as u32
}

/// The units that `c` is written with.
pub open spec fn units_of(c: char) -> Seq<u16> {
    let n = c as u32;
    if n < 0x10000 {
        seq![n as u16]
    } else {
        seq![(0xd800 + (n - 0x10000) / 0x400) as u16, (0xdc00 + (n - 0x10000) % 0x400) as u16]
    }
}

/// The UTF-16 form of `s`.
pub open spec fn encoded(s: Seq<char>) -> Seq<u16>
    decreases s.len(),
{
    if s.len() == 0 {
        Seq::empty()
    } else {
        encoded(s.drop_last()) + units_of(s.last())
    }
}

/// The text that the units from `i` on stand for. A surrogate without its partner
/// becomes the replacement character.
pub open spec fn decoded_from(units: Seq<u16>, i: int) -> Seq<char>
    decreases units.len() - i,
{
    if i >= units.len() {
        Seq::empty()
    } else if !is_high(units[i]) && !is_low(units[i]) {
        seq![units[i] as char] + decoded_from(units, i + 1)
    } else if is_high(units[i]) && i + 1 < units.len() && is_low(units[i + 1]) {
        seq![pair_value(units[i], units[i + 1]) as char] + decoded_from(units, i + 2)
    } else {
        seq!['\u{fffd}'] + decoded_from(units, i + 1)
    }
}

/// The text that `units` stand for.
pub open spec fn decoded(units: Seq<u16>) -> Seq<char> {
    decoded_from(units, 0)
}

/// Decodes UTF-16, with the replacement character for what is not valid.
pub fn from_utf16_lossy(units: &[u16]) -> (s: String)
    ensures
        s@ == decoded(units@),
{
    let mut s: String = String::new();
    let n: usize = units.len();
    let mut i: usize = 0;
    while i < n
        invariant
            i <= n == units@.len(),
            s@ + decoded_from(units@, i as int) == decoded(units@),
        decreases n - i,
    {
        let u: u16 = units[i];
        let ghost before = s@;
        let ghost from = i;
        let mut number: u32 = 0xfffd;
        let mut width: usize = 1;
        if u < 0xd800 || u > 0xdfff {
            number = u as u32;
        } else if u <= 0xdbff && i + 1 < n && units[i + 1] >= 0xdc00 && units[i + 1] <= 0xdfff {
            number = 0x10000 + (u as u32 - 0xd800) * 0x400 + (units[i + 1] as u32 - 0xdc00);
            width = 2;
        }
        let c: char = match char::from_u32(number) {
            Some(c) => c,
            None => '\u{fffd}',
        };
        s.push(c);
        i = i + width;
        assert(decoded_from(units@, from as int) == seq![c] + decoded_from(units@, i as int));
        assert(before + (seq![c] + decoded_from(units@, i as int)) == before.push(c)
            + decoded_from(units@, i as int));
    }
    assert(s@ + Seq::<char>::empty() == s@);
    s
}

/// The UTF-16 form of `s`, followed by a zero unit that ends it.
pub fn str_to_utf16_null(s: &str) -> (units: Vec<u16>)
    ensures
        units@ == encoded(s@).push(0u16),
{
    let chars: Vec<char> = to_chars(s);
    let mut units: Vec<u16> = Vec::new();
    let mut i: usize = 0;
    while i < chars.len()
        invariant
            i <= chars@.len(),
            units@ == encoded(chars@.take(i as int)),
        decreases chars@.len() - i,
    {
        let c: char = chars[i];
        let n: u32 = c as u32;
        if n < 0x10000 {
            units.push(n as u16);
        } else {
            units.push((0xd800 + (n - 0x10000) / 0x400) as u16);
            units.push((0xdc00 + (n - 0x10000) % 0x400) as u16);
        }
        assert(chars@.take(i + 1).drop_last() == chars@.take(i as int));
        assert(units@ == encoded(chars@.take(i + 1)));
        i = i + 1;
    }
    assert(chars@.take(i as int) == chars@);
    units.push(0);
    units
}

/// The position of the first zero unit, or the number of units.
pub open spec fn terminator(units: Seq<u16>, from: int) -> int
    decreases units.len() - from,
{
    if from >= units.len() {
        units.len() as int
    } else if units[from] == 0 {
        from
    } else {
        terminator(units, from + 1)
    }
}

/// The text in a buffer of fixed size: what stands before the first zero unit, or
/// all of it.
pub fn text_before_null(units: &[u16]) -> (s: String)
    ensures
        s@ == decoded(units@.take(terminator(units@, 0))),
{
    let mut end: usize = 0;
    while end < units.len() && units[end] != 0
        invariant
            end <= units@.len(),
            terminator(units@, 0) == terminator(units@, end as int),
        decreases units@.len() - end,
    {
        end = end + 1;
    }
    assert(units@.subrange(0, end as int) == units@.take(end as int));
    from_utf16_lossy(vstd::slice::slice_subrange(units, 0, end))
}

/// The text of the first `size` units of a buffer that a system call has filled,
/// or `None` if the call failed (`ok` is zero) or gave nothing.
pub fn text_of_call(ok: i32, size: u32, buffer: &[u16]) -> (r: Option<String>)
    requires
        ok != 0 && size > 0 ==> size <= buffer@.len(),
    ensures
        match r {
            Some(s) => ok != 0 && size > 0 && s@ == decoded(buffer@.take(size as int)),
            None => ok == 0 || size == 0,
        },
{
    if ok != 0 && size > 0 {
        assert(buffer@.subrange(0, size as int) == buffer@.take(size as int));
        Some(from_utf16_lossy(vstd::slice::slice_subrange(buffer, 0, size as usize)))
    } else {
        None
    }
}

/// How many units a counted string of `length` bytes holds.
pub fn unit_count(length: u16) -> (n: usize)
    ensures
        n == length / 2,
{
    (length / 2) as usize
}

/// The units of a character decode to it, wherever they stand.
proof fn lemma_decode_char(c: char, units: Seq<u16>, i: int)
    requires
        0 <= i,
        i + units_of(c).len() <= units.len(),
        units.subrange(i, i + units_of(c).len()) == units_of(c),
    ensures
        decoded_from(units, i) == seq![c] + decoded_from(units, i + units_of(c).len()),
{
    let u = units_of(c);
    let n = c as u32;
    assert(units.subrange(i, i + u.len())[0] == units[i]);
    if n >= 0x10000 {
        assert(units.subrange(i, i + u.len())[1] == units[i + 1]);
        assert(pair_value(u[0], u[1]) == n);
    }
}

/// Units that follow the text of `s` decode after it.
proof fn lemma_decode_text(s: Seq<char>, rest: Seq<u16>)
    ensures
        decoded(encoded(s) + rest) == s + decoded_from(encoded(s) + rest, encoded(s).len() as int),
    decreases s.len(),
{
    let all = encoded(s) + rest;
    if s.len() > 0 {
        let head = s.drop_last();
        let c = s.last();
        assert(all == encoded(head) + (units_of(c) + rest));
        lemma_decode_text(head, units_of(c) + rest);
        let at = encoded(head).len() as int;
        assert(all.subrange(at, at + units_of(c).len()) == units_of(c));
        lemma_decode_char(c, all, at);
        assert(head + (seq![c] + decoded_from(all, encoded(s).len() as int)) == s + decoded_from(
            all,
            encoded(s).len() as int,
        ));
    } else {
        assert(all == rest);
        assert(s + decoded(rest) == decoded(rest));
    }
}

/// Decoding gives back every text that was encoded.
pub proof fn law_utf16_reads_back(s: Seq<char>)
    ensures
        decoded(encoded(s)) == s,
{
    lemma_decode_text(s, Seq::empty());
    assert(encoded(s) + Seq::<u16>::empty() == encoded(s));
    assert(s + Seq::<char>::empty() == s);
}

/// No unit of a character other than zero is zero.
proof fn lemma_char_units_not_zero(c: char)
    requires
        c != '\0',
    ensures
        forall|i: int| 0 <= i < units_of(c).len() ==> #[trigger] units_of(c)[i] != 0,
{
}

/// No unit of a text without zero characters is zero.
proof fn lemma_units_not_zero(s: Seq<char>)
    requires
        forall|i: int| 0 <= i < s.len() ==> #[trigger] s[i] != '\0',
    ensures
        forall|i: int| 0 <= i < encoded(s).len() ==> #[trigger] encoded(s)[i] != 0,
    decreases s.len(),
{
    if s.len() > 0 {
        lemma_units_not_zero(s.drop_last());
        assert(s[s.len() - 1] != '\0');
        let head = encoded(s.drop_last());
        assert forall|i: int| 0 <= i < encoded(s).len() implies #[trigger] encoded(s)[i] != 0 by {
            if i < head.len() {
                assert(head[i] != 0);
            } else {
                let c = s.last();
                lemma_char_units_not_zero(c);
                assert(encoded(s)[i] == units_of(c)[i - head.len()]);
            }
        }
    }
}

/// The terminator is the first zero unit.
proof fn lemma_terminator(units: Seq<u16>, from: int, end: int)
    requires
        0 <= from <= end < units.len(),
        forall|i: int| from <= i < end ==> #[trigger] units[i] != 0,
        units[end] == 0,
    ensures
        terminator(units, from) == end,
    decreases end - from,
{
    if from < end {
        lemma_terminator(units, from + 1, end);
    }
}

/// A text without zero characters is read back from its zero-terminated form.
pub proof fn law_null_terminated_reads_back(s: Seq<char>)
    requires
        forall|i: int| 0 <= i < s.len() ==> #[trigger] s[i] != '\0',
    ensures
        ({
            let units = encoded(s).push(0u16);
            decoded(units.take(terminator(units, 0))) == s
        }),
{
    let units = encoded(s).push(0u16);
    lemma_units_not_zero(s);
    assert forall|i: int| 0 <= i < encoded(s).len() implies #[trigger] units[i] != 0 by {
        assert(encoded(s)[i] != 0);
    }
    lemma_terminator(units, 0, encoded(s).len() as int);
    assert(units.take(encoded(s).len() as int) == encoded(s));
    law_utf16_reads_back(s);
}

/// A unit that is no surrogate stands for the character with its number, two surrogates
/// that form a pair for the character with their number, and any other surrogate for the
/// replacement character. The text goes on with what the units behind stand for.
pub proof fn law_units_are_read_in_order(units: &[u16], rest: &[u16], s: (String, String))
    requires
        call_ensures(from_utf16_lossy, (units,), s.0),
        call_ensures(from_utf16_lossy, (rest,), s.1),
        units@.len() > 0 ==> {
            let high = 0xd800 <= units@[0] < 0xdc00;
            let pair = high && units@.len() > 1 && 0xdc00 <= units@[1] < 0xe000;
            rest@ == units@.skip(if pair {
                2
            } else {
                1int
            })
        },
    ensures
        units@.len() == 0 ==> s.0@.len() == 0,
        units@.len() > 0 ==> s.0@.len() == 1 + s.1@.len() && s.0@.skip(1) == s.1@,
        units@.len() > 0 ==> {
            let u = units@;
            let number = s.0@[0] as int;
            if u[0] < 0xd800 || u[0] >= 0xe000 {
                number == u[0]
            } else if u[0] < 0xdc00 && u.len() > 1 && 0xdc00 <= u[1] < 0xe000 {
                number == 0x10000 + (u[0] - 0xd800) * 0x400 + (u[1] - 0xdc00)
            } else {
                number == 0xfffd
            }
        },
{
    let u = units@;
    if u.len() > 0 {
        let k = u.len() - rest@.len();
        lemma_decoded_behind(u, k, k);
        assert(u.skip(k) == rest@);
        assert(s.0@.skip(1) == s.1@);
    }
}

/// Reading may begin anywhere.
proof fn lemma_decoded_behind(units: Seq<u16>, k: int, i: int)
    requires
        0 <= k <= i <= units.len(),
    ensures
        decoded_from(units, i) == decoded_from(units.skip(k), i - k),
    decreases units.len() - i,
{
    if i < units.len() {
        lemma_decoded_behind(units, k, i + 1);
        if i + 1 < units.len() {
            lemma_decoded_behind(units, k, i + 2);
        }
    }
}

/// The units of a text are those of its characters in order, and a zero behind them. A
/// character below 2^16 is written with its number, another one with a pair of
/// surrogates.
pub proof fn law_characters_are_written_in_order(
    s: &str,
    shorter: &str,
    units: (Vec<u16>, Vec<u16>),
)
    requires
        call_ensures(str_to_utf16_null, (s,), units.0),
        call_ensures(str_to_utf16_null, (shorter,), units.1),
        s@.len() > 0 ==> shorter@ == s@.drop_last(),
    ensures
        s@.len() == 0 ==> units.0@ == seq![0u16],
        units.1@.len() > 0 && units.1@.last() == 0,
        s@.len() > 0 ==> {
            let n = s@.last() as int;
            let before = units.1@.drop_last();
            &&& units.0@.take(before.len() as int) == before
            &&& units.0@.last() == 0
            &&& n < 0x10000 ==> units.0@.len() == before.len() + 2 && units.0@[before.len() as int]
                == n
            &&& n >= 0x10000 ==> {
                &&& units.0@.len() == before.len() + 3
                &&& units.0@[before.len() as int] == 0xd800 + (n - 0x10000) / 0x400
                &&& units.0@[before.len() + 1int] == 0xdc00 + (n - 0x10000) % 0x400
            }
        },
{
    assert(units.1@.drop_last() == encoded(shorter@));
    if s@.len() > 0 {
        let before = units.1@.drop_last();
        let own = units_of(s@.last());
        let k = before.len() as int;
        assert(units.0@ == (before + own).push(0u16));
        assert(units.0@.take(k) =~= before);
        lemma_units_of(s@.last());
        assert(units.0@[k] == own[0]);
        if own.len() == 2 {
            assert(units.0@[k + 1] == own[1]);
        }
    }
}

/// The units of a character by its number.
proof fn lemma_units_of(c: char)
    ensures
        (c as int) < 0x10000 ==> units_of(c).len() == 1 && units_of(c)[0] == c as int,
        c as int >= 0x10000 ==> {
            &&& units_of(c).len() == 2
            &&& units_of(c)[0] == 0xd800 + (c as int - 0x10000) / 0x400
            &&& units_of(c)[1] == 0xdc00 + (c as int - 0x10000) % 0x400
        },
{
}

/// The text in a buffer ends before the first zero unit, or with the buffer.
pub proof fn law_text_ends_before_the_first_zero(
    units: &[u16],
    used: &[u16],
    s: (String, String),
)
    requires
        call_ensures(text_before_null, (units,), s.0),
        call_ensures(from_utf16_lossy, (used,), s.1),
        used@.len() <= units@.len(),
        used@ == units@.take(used@.len() as int),
        forall|i: int| 0 <= i < used@.len() ==> #[trigger] used@[i] != 0,
        used@.len() < units@.len() ==> units@[used@.len() as int] == 0,
    ensures
        s.0@ == s.1@,
{
    let n = used@.len() as int;
    assert forall|i: int| 0 <= i < n implies #[trigger] units@[i] != 0 by {
        assert(used@[i] == units@[i]);
    }
    if n < units@.len() {
        lemma_terminator(units@, 0, n);
    } else {
        lemma_no_terminator(units@, 0);
    }
}

/// Without a zero unit there is no terminator.
proof fn lemma_no_terminator(units: Seq<u16>, from: int)
    requires
        0 <= from <= units.len(),
        forall|i: int| from <= i < units.len() ==> #[trigger] units[i] != 0,
    ensures
        terminator(units, from) == units.len(),
    decreases units.len() - from,
{
    if from < units.len() {
        lemma_no_terminator(units, from + 1);
    }
}

/// A call that succeeded and gave something gives the text of the units that it filled.
pub proof fn law_calls_give_what_they_filled(
    ok: i32,
    size: u32,
    buffer: &[u16],
    used: &[u16],
    r: Option<String>,
    s: String,
)
    requires
        call_ensures(text_of_call, (ok, size, buffer), r),
        call_ensures(from_utf16_lossy, (used,), s),
        size <= buffer@.len(),
        used@ == buffer@.take(size as int),
    ensures
        r is Some <==> ok != 0 && size != 0,
        r matches Some(t) ==> t@ == s@,
{
}

/// A unit takes two bytes.
pub proof fn law_units_take_two_bytes(length: u16, n: usize)
    requires
        call_ensures(unit_count, (length,), n),
    ensures
        2 * n <= length < 2 * n + 2,
{
}

} // verus!
