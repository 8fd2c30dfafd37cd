//! Literal paths of Windows, such as `\\?\C:\logs\metrics.csv`: where routes lead to
//! from them, and what the backups of their files are.
use vstd::prelude::*;

use crate::path;
use crate::path::{PathStyle, Reading};
use crate::text;
use crate::text::{find, from_chars, to_chars, CharClass};

verus! {

/// Where one component leads to from `at`, a literal path. Two full stops lead back
/// to before the last name after the first `prefix` characters. Where the component
/// is itself one of a literal path, full stops have no meaning.
pub open spec fn stepped(
    reading: Reading,
    at: Seq<char>,
    prefix: int,
    step: Seq<char>,
) -> Seq<char> {
    if step.len() == 0 || (reading !is Literal && step == seq!['.']) {
        at
    } else if reading !is Literal && step == seq!['.', '.'] {
        let start = path::component_start(Reading::Literal, at, prefix);
        if path::is_name(at.skip(start)) {
            at.take(start - 1)
        } else {
            at
        }
    } else {
        at.push('\\') + step
    }
}

/// Where the components of `route` lead to from `at`, a literal path.
pub open spec fn followed(
    reading: Reading,
    at: Seq<char>,
    prefix: int,
    route: Seq<char>,
) -> Seq<char>
    decreases route.len(),
{
    let end = text::find_from(route, reading.separators(), 0);
    let next = stepped(reading, at, prefix, route.take(end));
    if 0 <= end < route.len() {
        followed(reading, next, prefix, route.skip(end + 1))
    } else {
        next
    }
}

/// Whether a separator follows the first `prefix` characters of a literal path, if
/// anything does.
spec fn is_rooted(at: Seq<char>, prefix: int) -> bool {
    0 <= prefix <= at.len() && (at.len() > prefix ==> at[prefix] == '\\')
}

/// A literal path goes on behind its prefix with a separator, whatever is followed.
proof fn lemma_stepped_is_rooted(reading: Reading, at: Seq<char>, prefix: int, step: Seq<char>)
    requires
        is_rooted(at, prefix),
    ensures
        is_rooted(stepped(reading, at, prefix, step), prefix),
        stepped(reading, at, prefix, step).take(prefix) == at.take(prefix),
        path::is_name(at.skip(path::component_start(Reading::Literal, at, prefix))) ==> prefix
            < path::component_start(Reading::Literal, at, prefix) <= at.len(),
{
    let start = path::component_start(Reading::Literal, at, prefix);
    path::lemma_component_start(Reading::Literal, at, prefix);
    if path::is_name(at.skip(start)) && start == prefix {
        assert(at[prefix] != '\\');
    }
}

/// The same of a whole route.
proof fn lemma_followed_is_rooted(reading: Reading, at: Seq<char>, prefix: int, route: Seq<char>)
    requires
        is_rooted(at, prefix),
    ensures
        is_rooted(followed(reading, at, prefix, route), prefix),
        followed(reading, at, prefix, route).take(prefix) == at.take(prefix),
    decreases route.len(),
{
    let end = text::find_from(route, reading.separators(), 0);
    lemma_stepped_is_rooted(reading, at, prefix, route.take(end));
    if 0 <= end < route.len() {
        let next = stepped(reading, at, prefix, route.take(end));
        lemma_followed_is_rooted(reading, next, prefix, route.skip(end + 1));
    }
}

/// Takes one step from `at`.
fn step(reading: Reading, at: &mut Vec<char>, prefix: usize, component: &[char])
    requires
        is_rooted(old(at)@, prefix as int),
    ensures
        final(at)@ == stepped(reading, old(at)@, prefix as int, component@),
{
    let n: usize = component.len();
    if n == 0 {
        return;
    }
    if !reading.is_literal() && !path::is_named(component) {
        if n == 1 {
            return;
        }
        assert(at@.take(at@.len() as int) == at@);
        let end: usize = at.len();
        let start: usize = path::start_of_component(Reading::Literal, at.as_slice(), prefix, end);
        proof {
            lemma_stepped_is_rooted(reading, at@, prefix as int, component@);
        }
        assert(at@.subrange(start as int, at@.len() as int) == at@.skip(start as int));
        if path::is_named(vstd::slice::slice_subrange(at.as_slice(), start, at.len())) {
            at.truncate(start - 1);
            assert(at@ == old(at)@.take(start - 1));
        }
        return;
    }
    at.push('\\');
    let mut i: usize = 0;
    while i < n
        invariant
            n == component@.len(),
            i <= n,
            at@ == old(at)@.push('\\') + component@.take(i as int),
        decreases n - i,
    {
        at.push(component[i]);
        i = i + 1;
    }
    assert(component@.take(n as int) == component@);
}

/// Follows a route from `at`.
fn follow(reading: Reading, at: &mut Vec<char>, prefix: usize, route: &[char])
    requires
        is_rooted(old(at)@, prefix as int),
    ensures
        final(at)@ == followed(reading, old(at)@, prefix as int, route@),
{
    let n: usize = route.len();
    let class: CharClass = reading.class();
    let mut from: usize = 0;
    assert(route@.skip(0) == route@);
    loop
        invariant
            n == route@.len(),
            from <= n,
            class == reading.separators(),
            is_rooted(at@, prefix as int),
            followed(reading, old(at)@, prefix as int, route@) == followed(
                reading,
                at@,
                prefix as int,
                route@.skip(from as int),
            ),
        decreases n - from,
    {
        let end: usize = find(route, class, from);
        let ghost rest = route@.skip(from as int);
        proof {
            text::lemma_find_skip(route@, class, from as int, from as int);
            assert(rest.take(end - from) == route@.subrange(from as int, end as int));
            lemma_stepped_is_rooted(reading, at@, prefix as int, rest.take(end - from));
        }
        step(reading, at, prefix, vstd::slice::slice_subrange(route, from, end));
        if end >= n {
            return;
        }
        assert(rest.skip(end - from + 1) == route@.skip(end + 1));
        from = end + 1;
    }
}

/// The path that `name` leads to from the literal path `dir`, which begins with
/// `prefix` characters that say where to look. A name there may hold slashes, and
/// these separate: it may lead out of the directory, or elsewhere.
pub open spec fn joined(dir: Seq<char>, prefix: int, name: Seq<char>) -> Seq<char> {
    if path::prefix_len(PathStyle::Windows, name) > 0 {
        name
    } else if name.len() > 0 && path::is_separator(name[0]) {
        followed(Reading::Windows, dir.take(prefix), prefix, name)
    } else {
        followed(Reading::Windows, dir, prefix, name)
    }
}

/// Goes from a directory, the first `dir` characters of a literal path, to where a
/// name leads.
pub(crate) fn join_literally(
    path: &[char],
    prefix: usize,
    root: usize,
    dir: usize,
    name: &str,
) -> (r: String)
    requires
        prefix <= root <= dir <= path@.len(),
    ensures
        r@ == joined(
            followed(
                Reading::Literal,
                path@.take(prefix as int),
                prefix as int,
                path@.take(dir as int).skip(root as int),
            ),
            prefix as int,
            name@,
        ),
{
    let route: Vec<char> = to_chars(name);
    if path::prefix_of(PathStyle::Windows, &route) > 0 {
        return name.to_owned();
    }
    let ghost whole = path@.take(prefix as int);
    let mut at: Vec<char> = Vec::new();
    let mut i: usize = 0;
    while i < prefix
        invariant
            i <= prefix <= path@.len(),
            at@ == path@.take(i as int),
        decreases prefix - i,
    {
        at.push(path[i]);
        i = i + 1;
    }
    let inner: &[char] = vstd::slice::slice_subrange(path, root, dir);
    assert(inner@ == path@.take(dir as int).skip(root as int));
    proof {
        lemma_followed_is_rooted(Reading::Literal, whole, prefix as int, inner@);
        assert(whole.take(prefix as int) == whole);
    }
    if route.len() == 0 || !CharClass::PathSeparator.contains(route[0]) {
        follow(Reading::Literal, &mut at, prefix, inner);
    }
    follow(Reading::Windows, &mut at, prefix, &route);
    from_chars(&at)
}

/// To follow two routes with a separator between them is to follow one and then the
/// other.
proof fn lemma_followed_concat(
    reading: Reading,
    at: Seq<char>,
    prefix: int,
    u: Seq<char>,
    sep: char,
    v: Seq<char>,
)
    requires
        reading.separates(sep),
    ensures
        followed(reading, at, prefix, u.push(sep) + v) == followed(
            reading,
            followed(reading, at, prefix, u),
            prefix,
            v,
        ),
    decreases u.len(),
{
    let class = reading.separators();
    let whole = u.push(sep) + v;
    text::lemma_find_from(u, class, 0);
    text::lemma_find_from(whole, class, 0);
    let end = text::find_from(u, class, 0);
    let e = text::find_from(whole, class, 0);
    assert(whole[u.len() as int] == sep);
    assert forall|i: int| 0 <= i < u.len() implies #[trigger] whole[i] == u[i] by {}
    if e < end {
        assert(class.has(whole[e]) && !class.has(u[e]));
    }
    if end < e {
        assert(!class.has(whole[end]));
    }
    assert(whole.take(e) == u.take(end));
    if end < u.len() {
        let next = stepped(reading, at, prefix, u.take(end));
        assert(whole.skip(end + 1) == u.skip(end + 1).push(sep) + v);
        lemma_followed_concat(reading, next, prefix, u.skip(end + 1), sep, v);
    } else {
        assert(whole.skip(end + 1) == v);
    }
}

/// Whether no component of a route leads back: none holds a full stop, or full stops
/// have no meaning.
spec fn leads_onward(reading: Reading, route: Seq<char>) -> bool {
    reading !is Literal ==> forall|i: int| 0 <= i < route.len() ==> #[trigger] route[i] != '.'
}

/// A route whose components are all names, or all parts of a literal path, is written
/// behind where it begins.
proof fn lemma_followed_appends(reading: Reading, at: Seq<char>, prefix: int, route: Seq<char>)
    requires
        leads_onward(reading, route),
    ensures
        followed(reading, at, prefix, route) == at + followed(
            reading,
            Seq::<char>::empty(),
            0,
            route,
        ),
    decreases route.len(),
{
    let class = reading.separators();
    text::lemma_find_from(route, class, 0);
    let end = text::find_from(route, class, 0);
    let piece = route.take(end);
    let empty = Seq::<char>::empty();
    if reading !is Literal && piece.len() > 0 {
        assert(piece[0] == route[0]);
    }
    assert(stepped(reading, at, prefix, piece) == at + stepped(reading, empty, 0, piece));
    if end < route.len() {
        let rest = route.skip(end + 1);
        assert forall|i: int| reading !is Literal && 0 <= i < rest.len() implies #[trigger] rest[i]
            != '.' by {
            assert(rest[i] == route[end + 1 + i]);
        }
        lemma_followed_appends(reading, stepped(reading, at, prefix, piece), prefix, rest);
        lemma_followed_appends(reading, stepped(reading, empty, 0, piece), 0, rest);
        let a = at;
        let b = stepped(reading, empty, 0, piece);
        let c = followed(reading, empty, 0, rest);
        assert((a + b) + c == a + (b + c));
    }
}

/// What such a route adds to a path: nothing, or a backslash first and none last. Its
/// components have lost their separators, and nothing else is gone.
proof fn lemma_followed_text(reading: Reading, route: Seq<char>)
    requires
        reading !is Slash,
        leads_onward(reading, route),
    ensures
        ({
            let g = followed(reading, Seq::<char>::empty(), 0, route);
            &&& g.len() > 0 ==> g[0] == '\\' && g.last() != '\\'
            &&& reading is Windows ==> forall|i: int|
                0 <= i < g.len() ==> #[trigger] g[i] != '/' && g[i] != '.'
            &&& g.len() == 0 ==> forall|i: int|
                0 <= i < route.len() ==> reading.separates(#[trigger] route[i])
        }),
    decreases route.len(),
{
    let class = reading.separators();
    text::lemma_find_from(route, class, 0);
    let end = text::find_from(route, class, 0);
    let piece = route.take(end);
    let empty = Seq::<char>::empty();
    let first = stepped(reading, empty, 0, piece);
    if reading !is Literal && piece.len() > 0 {
        assert(piece[0] == route[0]);
    }
    assert(first == if piece.len() == 0 {
        empty
    } else {
        empty.push('\\') + piece
    });
    if piece.len() > 0 {
        assert(first[0] == '\\');
        assert(first.last() == route[end - 1]);
        assert forall|i: int| 1 <= i < first.len() implies #[trigger] first[i] == route[i - 1] by {
            assert(first[i] == piece[i - 1]);
        }
    }
    if end < route.len() {
        let rest = route.skip(end + 1);
        assert forall|i: int| reading !is Literal && 0 <= i < rest.len() implies #[trigger] rest[i]
            != '.' by {
            assert(rest[i] == route[end + 1 + i]);
        }
        lemma_followed_text(reading, rest);
        lemma_followed_appends(reading, first, 0, rest);
        let g = followed(reading, empty, 0, rest);
        assert(followed(reading, empty, 0, route) == first + g);
        assert forall|i: int| g.len() == 0 && first.len() == 0 && 0 <= i < route.len() implies
            reading.separates(#[trigger] route[i]) by {
            if i > end {
                assert(rest[i - end - 1] == route[i]);
            }
        }
        assert(g.len() > 0 ==> (first + g).last() == g.last());
        assert(g.len() == 0 ==> first + g == first);
    }
}

/// What has been written with one backslash before each component stays as it is.
proof fn lemma_followed_again(route: Seq<char>)
    ensures
        ({
            let g = followed(Reading::Literal, Seq::<char>::empty(), 0, route);
            followed(Reading::Literal, Seq::<char>::empty(), 0, g) == g
        }),
    decreases route.len(),
{
    let r = Reading::Literal;
    let class = r.separators();
    let empty = Seq::<char>::empty();
    text::lemma_find_from(route, class, 0);
    let end = text::find_from(route, class, 0);
    let piece = route.take(end);
    let rest = if end < route.len() {
        route.skip(end + 1)
    } else {
        empty
    };
    let h = followed(r, empty, 0, rest);
    assert(empty.take(0) == empty);
    if end < route.len() {
        lemma_followed_again(rest);
        lemma_followed_appends(r, stepped(r, empty, 0, piece), 0, rest);
    }
    let first = stepped(r, empty, 0, piece);
    let g = followed(r, empty, 0, route);
    assert(g == first + h);
    lemma_followed_text(r, rest);
    if piece.len() == 0 {
        assert(g == h);
    } else {
        // The components of what was written, one after the other.
        assert(g == empty.push('\\') + (piece + h));
        lemma_followed_concat(r, empty, 0, empty, '\\', piece + h);
        assert(followed(r, empty, 0, empty) == empty);
        if h.len() == 0 {
            assert(piece + h == piece);
            lemma_one_component(r, empty, 0, piece);
        } else {
            let tail = h.skip(1);
            assert(piece + h == piece.push('\\') + tail);
            lemma_followed_concat(r, empty, 0, piece, '\\', tail);
            lemma_one_component(r, empty, 0, piece);
            lemma_followed_appends(r, empty.push('\\') + piece, 0, tail);
            assert(h == empty.push('\\') + tail);
            lemma_followed_concat(r, empty, 0, empty, '\\', tail);
            assert(followed(r, empty, 0, h) == followed(r, empty, 0, tail));
        }
    }
}

/// A route of one component is one step.
proof fn lemma_one_component(reading: Reading, at: Seq<char>, prefix: int, piece: Seq<char>)
    requires
        forall|i: int| 0 <= i < piece.len() ==> !reading.separates(#[trigger] piece[i]),
    ensures
        followed(reading, at, prefix, piece) == stepped(reading, at, prefix, piece),
{
    text::lemma_find_from(piece, reading.separators(), 0);
    assert(piece.take(piece.len() as int) == piece);
}

/// A literal path begins alike when something else comes after what it begins with,
/// unless it is one on a share without a name.
proof fn lemma_same_literal_prefix(base: Seq<char>, t: Seq<char>)
    requires
        path::is_literal(PathStyle::Windows, base),
        path::is_literal_share(base) ==> path::literal_share_is_named(base),
        path::prefix_len(PathStyle::Windows, base) < base.len(),
        path::prefix_len(PathStyle::Windows, base) < t.len(),
        t.take(path::prefix_len(PathStyle::Windows, base)) == base.take(
            path::prefix_len(PathStyle::Windows, base),
        ),
        t[path::prefix_len(PathStyle::Windows, base)] == '\\',
    ensures
        path::is_literal(PathStyle::Windows, t),
        path::prefix_len(PathStyle::Windows, t) == path::prefix_len(PathStyle::Windows, base),
        path::root_len(PathStyle::Windows, t) == path::prefix_len(PathStyle::Windows, base) + 1,
{
    let w = PathStyle::Windows;
    let class = CharClass::One('\\');
    let p = path::prefix_len(w, base);
    path::lemma_prefix(w, base);
    assert forall|i: int| 0 <= i < p implies #[trigger] t[i] == base[i] by {
        assert(t.take(p)[i] == base.take(p)[i]);
    }
    assert(t[0] == base[0] && t[1] == base[1] && t[2] == base[2] && t[3] == base[3]);
    if path::is_literal_share(base) {
        text::lemma_find_from(base, class, 8);
        text::lemma_find_from(base, class, path::literal_server_end(base) + 1);
        assert(t[4] == base[4] && t[5] == base[5] && t[6] == base[6] && t[7] == base[7]);
        path::lemma_find_agree(base, t, class, 8);
        path::lemma_find_agree(base, t, class, path::literal_server_end(base) + 1);
    } else if path::is_drive_at(base, 4) && path::is_separator(base[6]) {
        assert(t[4] == base[4] && t[5] == base[5]);
    } else {
        text::lemma_find_from(base, class, 4);
        if p > 4 {
            assert(t[4] == base[4]);
        }
        if p > 5 {
            assert(t[5] == base[5]);
        }
        if p > 6 {
            assert(t[6] == base[6]);
        }
        if p > 7 {
            assert(t[7] == base[7]);
        }
        path::lemma_find_agree(base, t, class, 4);
    }
}

/// Where the directories in a stem lead to from `at`: all but its last component.
pub open spec fn stem_directory(at: Seq<char>, prefix: int, stem: Seq<char>) -> Seq<char> {
    let k = path::component_start(Reading::Windows, stem, 0);
    if k > 0 {
        followed(Reading::Windows, at, prefix, stem.take(k - 1))
    } else {
        at
    }
}

/// Where a name leads to with a number in it: the part before the number.
spec fn number_head(at: Seq<char>, prefix: int, stem: Seq<char>) -> Seq<char> {
    let k = path::component_start(Reading::Windows, stem, 0);
    stem_directory(at, prefix, stem).push('\\') + stem.skip(k)
}

/// Where a name leads to with a number in it: the part after the number.
spec fn number_tail(rest: Seq<char>) -> Seq<char> {
    let q = text::find_from(rest, CharClass::PathSeparator, 0);
    if q < rest.len() {
        rest.take(q) + followed(Reading::Windows, Seq::<char>::empty(), 0, rest.skip(q + 1))
    } else {
        rest
    }
}

/// A component with a number in it.
spec fn numbered_piece(tail: Seq<char>, index: nat, rest: Seq<char>) -> Seq<char> {
    tail.push('.') + text::decimal(index) + rest
}

/// Such a component is a name, and holds no separators where its parts hold none.
proof fn lemma_numbered_piece(tail: Seq<char>, index: nat, rest: Seq<char>)
    requires
        forall|i: int| 0 <= i < tail.len() ==> !path::is_separator(#[trigger] tail[i]),
        forall|i: int| 0 <= i < rest.len() ==> !path::is_separator(#[trigger] rest[i]),
    ensures
        ({
            let piece = numbered_piece(tail, index, rest);
            &&& path::is_name(piece)
            &&& forall|i: int| 0 <= i < piece.len() ==> !path::is_separator(#[trigger] piece[i])
        }),
{
    let digits = text::decimal(index);
    let piece = numbered_piece(tail, index, rest);
    let n = tail.len() as int;
    path::lemma_digits_without_dots(index);
    assert forall|i: int| 0 <= i < piece.len() implies !path::is_separator(#[trigger] piece[i]) by {
        if i < n {
            assert(piece[i] == tail[i]);
        } else if i == n {
            assert(piece[i] == '.');
        } else if i < n + 1 + digits.len() {
            assert(piece[i] == digits[i - n - 1]);
            assert(text::is_digit(digits[i - n - 1]));
        } else {
            assert(piece[i] == rest[i - n - 1 - digits.len()]);
        }
    }
    assert(piece.len() >= n + 1 + digits.len());
    assert(piece[n + 1] == digits[0]);
    if piece == seq!['.', '.'] {
        assert(piece.len() == 2 && piece[1] == '.');
    }
}

/// The last component of a route with a number in it, and what comes after it.
#[verifier::spinoff_prover]
proof fn lemma_followed_piece(
    dir: Seq<char>,
    prefix: int,
    tail: Seq<char>,
    index: nat,
    rest: Seq<char>,
)
    requires
        path::is_extension(rest),
        forall|i: int| 0 <= i < tail.len() ==> !path::is_separator(#[trigger] tail[i]),
    ensures
        followed(Reading::Windows, dir, prefix, numbered_piece(tail, index, rest)) == dir.push('\\')
            + numbered_piece(tail, index, number_tail(rest)),
{
    let r = Reading::Windows;
    let class = r.separators();
    let q = text::find_from(rest, class, 0);
    text::lemma_find_from(rest, class, 0);
    let first = rest.take(q);
    let piece = numbered_piece(tail, index, first);
    assert forall|i: int| 0 <= i < first.len() implies !path::is_separator(#[trigger] first[i]) by {
        assert(!class.has(rest[i]));
    }
    lemma_numbered_piece(tail, index, first);
    lemma_one_component(r, dir, prefix, piece);
    let there = dir.push('\\') + piece;
    if q < rest.len() {
        let further = rest.skip(q + 1);
        assert(numbered_piece(tail, index, rest) == piece.push(rest[q]) + further);
        lemma_followed_concat(r, dir, prefix, piece, rest[q], further);
        assert forall|i: int| 0 <= i < further.len() implies #[trigger] further[i] != '.' by {
            assert(further[i] == rest[q + 1 + i]);
        }
        lemma_followed_appends(r, there, prefix, further);
        let g = followed(r, Seq::<char>::empty(), 0, further);
        assert(there + g == dir.push('\\') + numbered_piece(tail, index, first + g));
    } else {
        assert(first == rest);
    }
}

/// The path that a name with a number in it leads to has the number in it.
#[verifier::spinoff_prover]
proof fn lemma_followed_number(
    at: Seq<char>,
    prefix: int,
    stem: Seq<char>,
    index: nat,
    rest: Seq<char>,
)
    requires
        path::is_extension(rest),
    ensures
        followed(Reading::Windows, at, prefix, stem.push('.') + text::decimal(index) + rest)
            == number_head(at, prefix, stem).push('.') + text::decimal(index) + number_tail(rest),
{
    let r = Reading::Windows;
    let k = path::component_start(r, stem, 0);
    path::lemma_component_start(r, stem, 0);
    let tail = stem.skip(k);
    let dir = stem_directory(at, prefix, stem);
    let digits = text::decimal(index);
    let part = numbered_piece(tail, index, rest);
    let whole = stem.push('.') + digits + rest;
    assert forall|i: int| 0 <= i < tail.len() implies !path::is_separator(#[trigger] tail[i]) by {
        assert(!r.separates(stem[k + i]));
    }
    lemma_followed_piece(dir, prefix, tail, index, rest);
    if k > 0 {
        assert(whole == stem.take(k - 1).push(stem[k - 1]) + part);
        lemma_followed_concat(r, at, prefix, stem.take(k - 1), stem[k - 1], part);
    } else {
        assert(whole == part);
    }
    let e = number_tail(rest);
    assert(dir.push('\\') + numbered_piece(tail, index, e) == number_head(at, prefix, stem).push('.')
        + digits + e);
}

/// What is known of the part after the number.
proof fn lemma_number_tail(rest: Seq<char>)
    requires
        path::is_extension(rest),
    ensures
        path::is_extension(number_tail(rest)),
        rest.len() > 0 ==> number_tail(rest).len() > 0,
        rest.len() == 0 ==> number_tail(rest).len() == 0,
        forall|i: int| 0 <= i < number_tail(rest).len() ==> #[trigger] number_tail(rest)[i] != '/',
        rest.len() > 0 && rest[rest.len() - 1] != '\\' ==> number_tail(rest).last() != '\\',
        (forall|i: int| 0 <= i < rest.len() ==> !path::is_separator(#[trigger] rest[i]))
            ==> number_tail(rest) == rest,
{
    let r = Reading::Windows;
    let class = r.separators();
    text::lemma_find_from(rest, class, 0);
    let q = text::find_from(rest, class, 0);
    if q < rest.len() {
        let further = rest.skip(q + 1);
        assert forall|i: int| 0 <= i < further.len() implies #[trigger] further[i] != '.' by {
            assert(further[i] == rest[q + 1 + i]);
        }
        lemma_followed_text(r, further);
        let g = followed(r, Seq::<char>::empty(), 0, further);
        let e = rest.take(q) + g;
        assert(q >= 1);
        assert forall|i: int| 0 <= i < e.len() implies #[trigger] e[i] != '/' && (i >= 1 ==> e[i]
            != '.') by {
            if i < q {
                assert(e[i] == rest[i]);
            } else {
                assert(e[i] == g[i - q]);
            }
        }
        assert(e[0] == rest[0]);
        if g.len() == 0 {
            assert(e.last() == rest[q - 1]);
        } else {
            assert(e.last() == g.last());
        }
    }
}

/// Where the backup of a literal path sets out: from its directory, or from the root
/// where the name begins with a slash.
pub open spec fn literal_outset(base: Seq<char>) -> Seq<char> {
    let dir = path::directory_in(PathStyle::Windows, base);
    if path::is_separator(path::name_in(PathStyle::Windows, base)->0[0]) {
        dir.take(path::prefix_len(PathStyle::Windows, base))
    } else {
        dir
    }
}

/// The backup of a literal path: the number stands in it as it stands in the name.
#[verifier::spinoff_prover]
proof fn lemma_literal_backup(base: Seq<char>, index: nat)
    requires
        path::is_literal(PathStyle::Windows, base),
        path::name_in(PathStyle::Windows, base) is Some,
    ensures
        ({
            let w = PathStyle::Windows;
            let name = path::name_in(w, base)->0;
            let prefix = path::prefix_len(w, base);
            let dir = path::directory_in(w, base);
            let outset = literal_outset(base);
            let b = path::backup_name(name, index);
            let cut = path::extension_start(name);
            let t = path::backup_in(w, base, index);
            &&& 4 <= prefix < base.len()
            &&& path::root_len(w, base) == prefix + 1
            &&& is_rooted(dir, prefix)
            &&& dir.take(prefix) == base.take(prefix)
            &&& dir.len() > prefix ==> dir.last() != '\\'
            &&& is_rooted(outset, prefix)
            &&& b.len() >= 3 && b[0] == name[0]
            &&& forall|i: int| 0 <= i < b.len() ==> #[trigger] b[i] != '\\'
            &&& t == if path::prefix_len(w, b) > 0 {
                b
            } else {
                number_head(outset, prefix, name.take(cut)).push('.') + text::decimal(index)
                    + number_tail(name.skip(cut))
            }
        }),
{
    let w = PathStyle::Windows;
    let r = Reading::Literal;
    let name = path::name_in(w, base)->0;
    let prefix = path::prefix_len(w, base);
    let cut = path::extension_start(name);
    path::lemma_name(w, base);
    path::lemma_root(w, base);
    path::lemma_prefix(w, base);
    path::lemma_backup_name(r, name, index);
    path::lemma_backup_name_parts(name, index);
    let start = base.take(prefix);
    let route = path::parent_in(w, base).skip(prefix + 1);
    let dir = path::directory_in(w, base);
    lemma_followed_is_rooted(r, start, prefix, route);
    assert(start.take(prefix) == start);
    lemma_followed_appends(r, start, prefix, route);
    lemma_followed_text(r, route);
    let g = followed(r, Seq::<char>::empty(), 0, route);
    assert(dir == start + g);
    if g.len() > 0 {
        assert(dir.last() == g.last());
    }
    let b = path::backup_name(name, index);
    assert forall|i: int| 0 <= i < b.len() implies #[trigger] b[i] != '\\' by {
        assert(!r.separates(b[i]));
    }
    lemma_followed_number(literal_outset(base), prefix, name.take(cut), index, name.skip(cut));
}

/// The part before the number, and where in it the stem begins.
proof fn lemma_number_head(at: Seq<char>, prefix: int, stem: Seq<char>) -> (dir: Seq<char>)
    requires
        is_rooted(at, prefix),
    ensures
        ({
            let k = path::component_start(Reading::Windows, stem, 0);
            &&& 0 <= k <= stem.len()
            &&& k > 0 ==> path::is_separator(stem[k - 1])
            &&& forall|i: int| k <= i < stem.len() ==> !path::is_separator(#[trigger] stem[i])
            &&& dir == stem_directory(at, prefix, stem)
            &&& number_head(at, prefix, stem) == dir.push('\\') + stem.skip(k)
            &&& prefix <= dir.len()
        }),
{
    let r = Reading::Windows;
    let k = path::component_start(r, stem, 0);
    path::lemma_component_start(r, stem, 0);
    assert forall|i: int| k <= i < stem.len() implies !path::is_separator(#[trigger] stem[i]) by {
        assert(!r.separates(stem[i]));
    }
    if k > 0 {
        lemma_followed_is_rooted(r, at, prefix, stem.take(k - 1));
        followed(r, at, prefix, stem.take(k - 1))
    } else {
        at
    }
}

/// The case of `lemma_backups_of_one_style` in which the path is taken literally.
pub(crate) proof fn lemma_literal_backups_differ(base: Seq<char>, i: nat, j: nat)
    requires
        path::is_literal(PathStyle::Windows, base),
        path::name_in(PathStyle::Windows, base) is Some,
        path::backup_in(PathStyle::Windows, base, i) == path::backup_in(PathStyle::Windows, base, j),
    ensures
        i == j,
{
    let w = PathStyle::Windows;
    let name = path::name_in(w, base)->0;
    let prefix = path::prefix_len(w, base);
    let cut = path::extension_start(name);
    let (b, c) = (path::backup_name(name, i), path::backup_name(name, j));
    let (di, dj) = (text::decimal(i), text::decimal(j));
    let outset = literal_outset(base);
    lemma_literal_backup(base, i);
    lemma_literal_backup(base, j);
    let head = number_head(outset, prefix, name.take(cut));
    let tail = number_tail(name.skip(cut));
    let dir = lemma_number_head(outset, prefix, name.take(cut));
    let n = dir.len() as int;
    let t = head.push('.') + di + tail;
    let u = head.push('.') + dj + tail;
    assert(t[n] == '\\' && u[n] == '\\');
    if path::prefix_len(w, b) > 0 && path::prefix_len(w, c) > 0 {
        path::law_backup_names_differ(name, i, j);
    } else if path::prefix_len(w, b) > 0 {
        assert(b[n] != '\\');
    } else if path::prefix_len(w, c) > 0 {
        assert(c[n] != '\\');
    } else {
        let h = head.len() + 1int;
        assert(t.len() == h + di.len() + tail.len());
        assert(u.len() == h + dj.len() + tail.len());
        assert(t.subrange(h, h + di.len()) == di);
        assert(u.subrange(h, h + dj.len()) == dj);
        text::law_decimal_is_injective(i, j);
    }
}

/// The backup of a literal path whose name holds no slash and is no drive.
pub(crate) proof fn lemma_literal_backup_shape(base: Seq<char>, index: nat)
    requires
        path::is_literal(PathStyle::Windows, base),
        path::name_in(PathStyle::Windows, base) is Some,
        ({
            let name = path::name_in(PathStyle::Windows, base)->0;
            &&& !path::is_drive_at(name, 0)
            &&& forall|i: int| 0 <= i < name.len() ==> !path::is_separator(#[trigger] name[i])
        }),
    ensures
        ({
            let w = PathStyle::Windows;
            let b = path::backup_name(path::name_in(w, base)->0, index);
            &&& path::backup_in(w, base, index) == path::directory_in(w, base).push('\\') + b
            &&& path::is_name(b)
            &&& forall|i: int| 0 <= i < b.len() ==> !path::is_separator(#[trigger] b[i])
        }),
{
    let w = PathStyle::Windows;
    let r = Reading::Windows;
    let name = path::name_in(w, base)->0;
    let b = path::backup_name(name, index);
    path::lemma_name(w, base);
    assert forall|i: int| 0 <= i < name.len() implies !r.separates(#[trigger] name[i]) by {
        assert(!path::is_separator(name[i]));
    }
    path::lemma_backup_name(r, name, index);
    assert forall|i: int| 0 <= i < b.len() implies !path::is_separator(#[trigger] b[i]) by {
        assert(!r.separates(b[i]));
    }
    assert(!path::is_separator(b[0]));
    assert(path::prefix_len(w, b) == 0);
    lemma_one_component(r, path::directory_in(w, base), path::prefix_len(w, base), b);
}

/// A text with a number in it holds no slashes where its parts do not.
proof fn lemma_numbered_text(dir: Seq<char>, part: Seq<char>, index: nat, tail: Seq<char>)
    requires
        forall|i: int| 0 <= i < part.len() ==> #[trigger] part[i] != '/',
        forall|i: int| 0 <= i < tail.len() ==> #[trigger] tail[i] != '/',
        tail.len() > 0 ==> tail.last() != '\\',
    ensures
        ({
            let t = (dir.push('\\') + part).push('.') + text::decimal(index) + tail;
            &&& dir.len() < t.len()
            &&& t[dir.len() as int] == '\\'
            &&& forall|i: int| dir.len() < i < t.len() ==> #[trigger] t[i] != '/'
            &&& t.last() != '\\'
        }),
{
    let digits = text::decimal(index);
    let head = dir.push('\\') + part;
    let t = head.push('.') + digits + tail;
    let n = dir.len() as int;
    let h = head.len() as int;
    path::lemma_digits_without_dots(index);
    assert forall|i: int| n < i < t.len() implies #[trigger] t[i] != '/' by {
        if i < h {
            assert(t[i] == part[i - n - 1]);
        } else if i == h {
            assert(t[i] == '.');
        } else if i < h + 1 + digits.len() {
            assert(t[i] == digits[i - h - 1]);
            assert(text::is_digit(digits[i - h - 1]));
        } else {
            assert(t[i] == tail[i - h - 1 - digits.len()]);
        }
    }
    if tail.len() == 0 {
        assert(t.last() == digits[digits.len() - 1]);
    } else {
        assert(t.last() == tail.last());
    }
}

/// What comes after a certain backslash in the backup of a literal path: no slashes.
proof fn lemma_literal_backup_tail(base: Seq<char>, index: nat) -> (n: int)
    requires
        path::is_literal(PathStyle::Windows, base),
        path::name_in(PathStyle::Windows, base) is Some,
        path::prefix_len(
            PathStyle::Windows,
            path::backup_name(path::name_in(PathStyle::Windows, base)->0, index),
        ) <= 0,
    ensures
        ({
            let t = path::backup_in(PathStyle::Windows, base, index);
            &&& path::prefix_len(PathStyle::Windows, base) <= n < t.len()
            &&& t[n] == '\\'
            &&& forall|i: int| n < i < t.len() ==> #[trigger] t[i] != '/'
            &&& t.last() != '\\'
        }),
{
    let w = PathStyle::Windows;
    let name = path::name_in(w, base)->0;
    let prefix = path::prefix_len(w, base);
    let cut = path::extension_start(name);
    let stem = name.take(cut);
    let rest = name.skip(cut);
    path::lemma_name(w, base);
    lemma_literal_backup(base, index);
    path::lemma_backup_name_parts(name, index);
    lemma_number_tail(rest);
    let dir = lemma_number_head(literal_outset(base), prefix, stem);
    let k = path::component_start(Reading::Windows, stem, 0);
    let part = stem.skip(k);
    assert forall|i: int| 0 <= i < part.len() implies #[trigger] part[i] != '/' by {
        assert(!path::is_separator(stem[k + i]));
    }
    if rest.len() > 0 {
        assert(rest[rest.len() - 1] == name[name.len() - 1]);
        assert(!Reading::Literal.separates(name[name.len() - 1]));
    }
    lemma_numbered_text(dir, part, index, number_tail(rest));
    dir.len() as int
}

/// A name that ends a literal path holds no slash if there is none after some
/// backslash.
proof fn lemma_literal_name_without_slash(path: Seq<char>, n: int)
    requires
        path::is_literal(PathStyle::Windows, path),
        path::name_in(PathStyle::Windows, path) is Some,
        path::prefix_len(PathStyle::Windows, path) <= n < path.len(),
        path[n] == '\\',
        forall|i: int| n < i < path.len() ==> #[trigger] path[i] != '/',
        path.last() != '\\',
    ensures
        ({
            let name = path::name_in(PathStyle::Windows, path)->0;
            forall|i: int| 0 <= i < name.len() ==> !path::is_separator(#[trigger] name[i])
        }),
{
    let w = PathStyle::Windows;
    let r = Reading::Literal;
    let name = path::name_in(w, path)->0;
    path::lemma_name(w, path);
    path::lemma_root(w, path);
    path::lemma_settled_stays(r, path, path::root_len(w, path));
    path::lemma_component_start(r, path, path::root_len(w, path));
    let k = path::name_start(w, path);
    if k <= n {
        assert(!r.separates(path[n]));
    }
    assert forall|i: int| 0 <= i < name.len() implies !path::is_separator(#[trigger] name[i]) by {
        assert(name[i] == path[k + i]);
        assert(!r.separates(name[i]));
    }
}

/// A name that stands behind a backslash at the end of a literal path and holds no
/// backslashes is the one there.
proof fn lemma_literal_name_behind(path: Seq<char>, dir: Seq<char>, b: Seq<char>)
    requires
        path::is_literal(PathStyle::Windows, path),
        path::root_len(PathStyle::Windows, path) == path::prefix_len(PathStyle::Windows, path) + 1,
        path::is_name(b),
        forall|i: int| 0 <= i < b.len() ==> #[trigger] b[i] != '\\',
        4 <= path::prefix_len(PathStyle::Windows, path) <= dir.len(),
        path == dir.push('\\') + b,
    ensures
        path::name_in(PathStyle::Windows, path) == Some(b),
{
    let r = Reading::Literal;
    let k = path.len() - b.len();
    assert(path.skip(k) == b);
    assert(path[k - 1] == '\\');
    assert forall|i: int| 0 <= i < b.len() implies !r.separates(#[trigger] b[i]) by {
        assert(b[i] != '\\');
    }
    path::lemma_last_component(r, path, path::root_len(PathStyle::Windows, path), b);
}

/// No backup has the path of its file, where that is taken literally.
pub(crate) proof fn lemma_literal_backup_is_not_the_file(base: Seq<char>, index: nat)
    requires
        path::is_literal(PathStyle::Windows, base),
        path::name_in(PathStyle::Windows, base) is Some,
    ensures
        path::backup_in(PathStyle::Windows, base, index) != base,
{
    let w = PathStyle::Windows;
    let name = path::name_in(w, base)->0;
    let b = path::backup_name(name, index);
    lemma_literal_backup(base, index);
    if path::prefix_len(w, b) > 0 {
        assert(b[0] != '\\');
    } else {
        let n = lemma_literal_backup_tail(base, index);
        if path::backup_in(w, base, index) == base {
            // The name would hold no slash, and would then be the backup's name.
            lemma_literal_name_without_slash(base, n);
            path::lemma_name(w, base);
            path::lemma_backup_name(Reading::Literal, name, index);
            assert(!path::is_separator(name[0]));
            assert(!path::is_drive_at(name, 0));
            lemma_literal_backup_shape(base, index);
            lemma_literal_name_behind(base, path::directory_in(w, base), b);
            path::law_backup_names_differ(name, index, index);
        }
    }
}

/// Whether a literal path is written with one backslash before each component after
/// the first `prefix` characters.
spec fn is_tidy(at: Seq<char>, prefix: int) -> bool {
    &&& 0 <= prefix <= at.len()
    &&& followed(Reading::Literal, at.take(prefix), prefix, at.skip(prefix)) == at
}

/// What such a path begins and ends with.
proof fn lemma_tidy(at: Seq<char>, prefix: int)
    requires
        is_tidy(at, prefix),
    ensures
        is_rooted(at, prefix),
        at.len() > prefix ==> at.len() > prefix + 1 && at.last() != '\\',
        at.len() > prefix ==> followed(
            Reading::Literal,
            at.take(prefix),
            prefix,
            at.skip(prefix + 1),
        ) == at,
{
    let r = Reading::Literal;
    let start = at.take(prefix);
    let route = at.skip(prefix);
    let empty = Seq::<char>::empty();
    assert(start.take(prefix) == start);
    lemma_followed_is_rooted(r, start, prefix, route);
    lemma_followed_appends(r, start, prefix, route);
    lemma_followed_text(r, route);
    let g = followed(r, empty, 0, route);
    assert(at == start + g);
    assert(g == route);
    if at.len() > prefix {
        let rest = at.skip(prefix + 1);
        assert(route[0] == at[prefix]);
        assert(route == empty.push('\\') + rest);
        lemma_followed_concat(r, start, prefix, empty, '\\', rest);
        assert(empty.take(0) == empty);
        assert(followed(r, start, prefix, empty) == start);
        assert(route.last() == at.last());
        if rest.len() == 0 {
            assert(route.last() == '\\');
        }
    }
}

/// One more component is written as the others are.
proof fn lemma_tidy_pushed(at: Seq<char>, prefix: int, step: Seq<char>)
    requires
        is_tidy(at, prefix),
        step.len() > 0,
        forall|i: int| 0 <= i < step.len() ==> #[trigger] step[i] != '\\',
    ensures
        is_tidy(at.push('\\') + step, prefix),
{
    let r = Reading::Literal;
    let start = at.take(prefix);
    let next = at.push('\\') + step;
    assert(next.take(prefix) == start);
    assert(next.skip(prefix) == at.skip(prefix).push('\\') + step);
    lemma_followed_concat(r, start, prefix, at.skip(prefix), '\\', step);
    lemma_one_component(r, at, prefix, step);
}

/// One component less leaves the others as they are.
proof fn lemma_tidy_popped(at: Seq<char>, prefix: int, u: Seq<char>, c: Seq<char>)
    requires
        is_tidy(at, prefix),
        at == u.push('\\') + c,
        prefix <= u.len(),
        c.len() > 0,
        forall|i: int| 0 <= i < c.len() ==> #[trigger] c[i] != '\\',
    ensures
        is_tidy(u, prefix),
{
    let r = Reading::Literal;
    let start = at.take(prefix);
    assert(u.take(prefix) == start);
    assert(at.skip(prefix) == u.skip(prefix).push('\\') + c);
    lemma_followed_concat(r, start, prefix, u.skip(prefix), '\\', c);
    let f = followed(r, start, prefix, u.skip(prefix));
    lemma_one_component(r, f, prefix, c);
    assert(f.push('\\') + c == u.push('\\') + c);
    assert(f.len() == u.len());
    assert((f.push('\\') + c).take(u.len() as int) == f);
    assert((u.push('\\') + c).take(u.len() as int) == u);
}

/// A route leads from a path that is written so to one that is, too.
proof fn lemma_tidy_stepped(at: Seq<char>, prefix: int, step: Seq<char>)
    requires
        is_tidy(at, prefix),
        forall|i: int| 0 <= i < step.len() ==> !path::is_separator(#[trigger] step[i]),
    ensures
        is_tidy(stepped(Reading::Windows, at, prefix, step), prefix),
{
    let r = Reading::Windows;
    lemma_tidy(at, prefix);
    lemma_stepped_is_rooted(r, at, prefix, step);
    if step.len() == 0 || step == seq!['.'] {
    } else if step == seq!['.', '.'] {
        let start = path::component_start(Reading::Literal, at, prefix);
        let c = at.skip(start);
        if path::is_name(c) {
            path::lemma_component_start(Reading::Literal, at, prefix);
            assert(at[start - 1] == '\\');
            assert forall|i: int| 0 <= i < c.len() implies #[trigger] c[i] != '\\' by {
                assert(!Reading::Literal.separates(at[start + i]));
            }
            assert(at == at.take(start - 1).push('\\') + c);
            lemma_tidy_popped(at, prefix, at.take(start - 1), c);
        }
    } else {
        assert forall|i: int| 0 <= i < step.len() implies #[trigger] step[i] != '\\' by {
            assert(!path::is_separator(step[i]));
        }
        lemma_tidy_pushed(at, prefix, step);
    }
}

/// The same of a whole route.
proof fn lemma_tidy_followed(at: Seq<char>, prefix: int, route: Seq<char>)
    requires
        is_tidy(at, prefix),
    ensures
        is_tidy(followed(Reading::Windows, at, prefix, route), prefix),
        followed(Reading::Windows, at, prefix, route).take(prefix) == at.take(prefix),
    decreases route.len(),
{
    let r = Reading::Windows;
    let class = r.separators();
    lemma_tidy(at, prefix);
    lemma_followed_is_rooted(r, at, prefix, route);
    text::lemma_find_from(route, class, 0);
    let end = text::find_from(route, class, 0);
    let piece = route.take(end);
    assert forall|i: int| 0 <= i < piece.len() implies !path::is_separator(#[trigger] piece[i]) by {
        assert(!class.has(route[i]));
    }
    lemma_tidy_stepped(at, prefix, piece);
    if end < route.len() {
        lemma_tidy_followed(stepped(r, at, prefix, piece), prefix, route.skip(end + 1));
    }
}

/// The directory of a literal path is written so, and so is where a backup sets out.
proof fn lemma_tidy_directory(base: Seq<char>)
    requires
        path::is_literal(PathStyle::Windows, base),
        path::name_in(PathStyle::Windows, base) is Some,
    ensures
        ({
            let w = PathStyle::Windows;
            let prefix = path::prefix_len(w, base);
            &&& is_tidy(path::directory_in(w, base), prefix)
            &&& path::directory_in(w, base).take(prefix) == base.take(prefix)
            &&& is_tidy(literal_outset(base), prefix)
            &&& literal_outset(base).take(prefix) == base.take(prefix)
        }),
{
    let w = PathStyle::Windows;
    let r = Reading::Literal;
    let prefix = path::prefix_len(w, base);
    let start = base.take(prefix);
    let route = path::parent_in(w, base).skip(prefix + 1);
    let dir = path::directory_in(w, base);
    let empty = Seq::<char>::empty();
    lemma_literal_backup(base, 0);
    lemma_followed_appends(r, start, prefix, route);
    let g = followed(r, empty, 0, route);
    assert(dir == start + g);
    assert(dir.skip(prefix) == g);
    lemma_followed_again(route);
    lemma_followed_appends(r, start, prefix, g);
    assert(start.take(prefix) == start);
    assert(start.skip(prefix) == empty);
    assert(empty.take(0) == empty);
    assert(followed(r, start, prefix, empty) == start);
    assert(dir.take(prefix) == start);
}

/// The name and the directory of a literal path that is written so.
proof fn lemma_literal_in(base: Seq<char>, at: Seq<char>, b: Seq<char>)
    requires
        path::is_literal(PathStyle::Windows, base),
        path::is_literal_share(base) ==> path::literal_share_is_named(base),
        4 <= path::prefix_len(PathStyle::Windows, base) < base.len(),
        is_tidy(at, path::prefix_len(PathStyle::Windows, base)),
        at.take(path::prefix_len(PathStyle::Windows, base)) == base.take(
            path::prefix_len(PathStyle::Windows, base),
        ),
        path::is_name(b),
        b.len() >= 2,
        forall|i: int| 0 <= i < b.len() ==> #[trigger] b[i] != '\\',
    ensures
        path::name_in(PathStyle::Windows, at.push('\\') + b) == Some(b),
        path::directory_in(PathStyle::Windows, at.push('\\') + b) == at,
{
    let w = PathStyle::Windows;
    let r = Reading::Literal;
    let prefix = path::prefix_len(w, base);
    let t = at.push('\\') + b;
    lemma_tidy(at, prefix);
    assert(t.take(prefix) == at.take(prefix));
    assert(t[prefix] == '\\');
    lemma_same_literal_prefix(base, t);
    assert forall|i: int| 0 <= i < b.len() implies !r.separates(#[trigger] b[i]) by {
        assert(b[i] != '\\');
    }
    if at.len() == prefix {
        let empty = Seq::<char>::empty();
        path::lemma_read_back(w, t, at.push('\\'), '\\', b);
        assert(at.push('\\').skip(prefix + 1) == empty);
        assert(empty.take(0) == empty);
        assert(at.take(prefix) == at);
        assert(followed(r, at, prefix, empty) == at);
    } else {
        path::lemma_settled_stays(r, at, prefix + 1);
        path::lemma_read_back(w, t, at, '\\', b);
    }
}

/// The case of `law_backup_stands_beside_its_file` in which the path is taken
/// literally.
pub(crate) proof fn lemma_literal_backup_beside(base: Seq<char>, index: nat)
    requires
        path::is_literal(PathStyle::Windows, base),
        path::is_literal_share(base) ==> path::literal_share_is_named(base),
        path::name_in(PathStyle::Windows, base) is Some,
        ({
            let name = path::name_in(PathStyle::Windows, base)->0;
            &&& !path::is_drive_at(name, 0)
            &&& forall|i: int| 0 <= i < name.len() ==> !path::is_separator(#[trigger] name[i])
        }),
    ensures
        ({
            let w = PathStyle::Windows;
            let t = path::backup_in(w, base, index);
            &&& path::name_in(w, t) == Some(path::backup_name(path::name_in(w, base)->0, index))
            &&& path::directory_in(w, t) == path::directory_in(w, base)
        }),
{
    let w = PathStyle::Windows;
    lemma_literal_backup(base, index);
    lemma_literal_backup_shape(base, index);
    lemma_tidy_directory(base);
    let b = path::backup_name(path::name_in(w, base)->0, index);
    lemma_literal_in(base, path::directory_in(w, base), b);
}

/// The directory that the backup of a literal path gets to: where the directories in
/// the name lead to.
pub open spec fn backup_directory(base: Seq<char>) -> Seq<char> {
    let w = PathStyle::Windows;
    let name = path::name_in(w, base)->0;
    stem_directory(
        literal_outset(base),
        path::prefix_len(w, base),
        name.take(path::extension_start(name)),
    )
}

/// The last component of a backup's name, where the extension holds no separators.
pub open spec fn backup_component(name: Seq<char>, index: nat) -> Seq<char> {
    let cut = path::extension_start(name);
    let k = path::component_start(Reading::Windows, name.take(cut), 0);
    name.subrange(k, cut).push('.') + text::decimal(index) + name.skip(cut)
}

/// The backup of a literal path whose name may hold slashes before its extension
/// stands in the directory that the name leads to, with the number and the extension
/// at the end. Where the backup's name begins like a drive or a share it is no path
/// behind another, and on a share without a name the backup would name one: these are
/// left out.
pub proof fn law_place_of_a_literal_backup(base: Seq<char>, index: nat)
    requires
        path::is_literal(PathStyle::Windows, base),
        path::is_literal_share(base) ==> path::literal_share_is_named(base),
        path::name_in(PathStyle::Windows, base) is Some,
        ({
            let name = path::name_in(PathStyle::Windows, base)->0;
            let rest = name.skip(path::extension_start(name));
            &&& path::prefix_len(PathStyle::Windows, path::backup_name(name, index)) == 0
            &&& forall|i: int| 0 <= i < rest.len() ==> !path::is_separator(#[trigger] rest[i])
        }),
    ensures
        ({
            let w = PathStyle::Windows;
            let name = path::name_in(w, base)->0;
            let t = path::backup_in(w, base, index);
            &&& path::name_in(w, t) == Some(backup_component(name, index))
            &&& path::directory_in(w, t) == backup_directory(base)
        }),
{
    let name = path::name_in(PathStyle::Windows, base)->0;
    lemma_place_text(base, index);
    lemma_place_is_tidy(base);
    lemma_backup_component(name, index);
    lemma_literal_in(base, backup_directory(base), backup_component(name, index));
}

/// The text of such a backup: its directory, a backslash and its last component.
proof fn lemma_place_text(base: Seq<char>, index: nat)
    requires
        path::is_literal(PathStyle::Windows, base),
        path::name_in(PathStyle::Windows, base) is Some,
        ({
            let name = path::name_in(PathStyle::Windows, base)->0;
            let rest = name.skip(path::extension_start(name));
            &&& path::prefix_len(PathStyle::Windows, path::backup_name(name, index)) == 0
            &&& forall|i: int| 0 <= i < rest.len() ==> !path::is_separator(#[trigger] rest[i])
        }),
    ensures
        path::backup_in(PathStyle::Windows, base, index) == backup_directory(base).push('\\')
            + backup_component(path::name_in(PathStyle::Windows, base)->0, index),
{
    let w = PathStyle::Windows;
    let name = path::name_in(w, base)->0;
    let cut = path::extension_start(name);
    let (stem, rest) = (name.take(cut), name.skip(cut));
    lemma_literal_backup(base, index);
    path::lemma_backup_name_parts(name, index);
    lemma_number_tail(rest);
    let dir = lemma_number_head(literal_outset(base), path::prefix_len(w, base), stem);
    let k = path::component_start(Reading::Windows, stem, 0);
    let part = stem.skip(k);
    let digits = text::decimal(index);
    assert(name.subrange(k, cut) == part);
    assert((dir.push('\\') + part).push('.') + digits + rest == dir.push('\\') + (part.push('.')
        + digits + rest));
}

/// The directory that the name of a literal path leads to is written with one
/// backslash before each component.
proof fn lemma_place_is_tidy(base: Seq<char>)
    requires
        path::is_literal(PathStyle::Windows, base),
        path::name_in(PathStyle::Windows, base) is Some,
    ensures
        ({
            let prefix = path::prefix_len(PathStyle::Windows, base);
            &&& 4 <= prefix < base.len()
            &&& is_tidy(backup_directory(base), prefix)
            &&& backup_directory(base).take(prefix) == base.take(prefix)
        }),
{
    let w = PathStyle::Windows;
    let name = path::name_in(w, base)->0;
    let prefix = path::prefix_len(w, base);
    let stem = name.take(path::extension_start(name));
    lemma_literal_backup(base, 0);
    lemma_tidy_directory(base);
    let k = path::component_start(Reading::Windows, stem, 0);
    if k > 0 {
        lemma_tidy_followed(literal_outset(base), prefix, stem.take(k - 1));
    }
}

/// What the last component of a backup's name is made of: it is a name, and keeps the
/// extension.
pub(crate) proof fn lemma_backup_component(name: Seq<char>, index: nat)
    requires
        ({
            let rest = name.skip(path::extension_start(name));
            forall|i: int| 0 <= i < rest.len() ==> !path::is_separator(#[trigger] rest[i])
        }),
    ensures
        ({
            let piece = backup_component(name, index);
            &&& path::is_name(piece)
            &&& piece.len() >= 2
            &&& forall|i: int| 0 <= i < piece.len() ==> !path::is_separator(#[trigger] piece[i])
            &&& forall|i: int| 0 <= i < piece.len() ==> #[trigger] piece[i] != '\\'
            &&& path::last_dot(name) > 0 ==> {
                &&& path::last_dot(piece) > 0
                &&& piece.skip(path::last_dot(piece)) == name.skip(path::last_dot(name))
            }
        }),
{
    let cut = path::extension_start(name);
    let (stem, rest) = (name.take(cut), name.skip(cut));
    let digits = text::decimal(index);
    let k = path::component_start(Reading::Windows, stem, 0);
    path::lemma_backup_name_parts(name, index);
    path::lemma_digits_without_dots(index);
    path::lemma_component_start(Reading::Windows, stem, 0);
    let part = name.subrange(k, cut);
    let piece = backup_component(name, index);
    let n = part.len() as int;
    assert forall|i: int| 0 <= i < piece.len() implies !path::is_separator(#[trigger] piece[i]) by {
        if i < n {
            assert(piece[i] == stem[k + i]);
            assert(!Reading::Windows.separates(stem[k + i]));
        } else if i == n {
            assert(piece[i] == '.');
        } else if i < n + 1 + digits.len() {
            assert(piece[i] == digits[i - n - 1]);
            assert(text::is_digit(digits[i - n - 1]));
        } else {
            assert(piece[i] == rest[i - n - 1 - digits.len()]);
        }
    }
    assert forall|i: int| 0 <= i < piece.len() implies #[trigger] piece[i] != '\\' by {
        assert(!path::is_separator(piece[i]));
    }
    assert(piece[n + 1] == digits[0]);
    assert(piece != seq!['.', '.']) by {
        if piece == seq!['.', '.'] {
            assert(piece.len() >= n + 1 + digits.len());
            assert(piece.len() == 2 && piece[1] == '.');
        }
    }
    if path::last_dot(name) > 0 {
        path::lemma_last_dot(name);
        let at = n + 1 + digits.len();
        assert(piece[at] == rest[0]);
        assert forall|i: int| at < i < piece.len() implies #[trigger] piece[i] != '.' by {
            assert(piece[i] == rest[i - at]);
        }
        path::lemma_last_dot_at(piece, at);
        assert(piece.skip(at) == rest);
    }
}

/// Right below the root of a literal path, a slash before a name changes nothing: the
/// backup stands in the directory of the file, with its extension.
pub proof fn law_slash_before_a_literal_name(base: Seq<char>, index: nat)
    requires
        path::is_literal(PathStyle::Windows, base),
        path::is_literal_share(base) ==> path::literal_share_is_named(base),
        path::name_in(PathStyle::Windows, base) is Some,
        path::directory_in(PathStyle::Windows, base) == base.take(
            path::prefix_len(PathStyle::Windows, base),
        ),
        ({
            let name = path::name_in(PathStyle::Windows, base)->0;
            &&& path::is_separator(name[0])
            &&& forall|i: int| 1 <= i < name.len() ==> !path::is_separator(#[trigger] name[i])
        }),
        path::name_in(PathStyle::Windows, base)->0.len() > 1,
    ensures
        ({
            let w = PathStyle::Windows;
            let name = path::name_in(w, base)->0;
            let t = path::backup_in(w, base, index);
            let backup = path::name_in(w, t)->0;
            &&& path::backup_stays(w, base, index)
            &&& path::name_in(w, t) is Some
            &&& path::directory_in(w, t) == path::directory_in(w, base)
            &&& path::last_dot(name) > 0 ==> backup.skip(path::last_dot(backup)) == name.skip(
                path::last_dot(name),
            )
        }),
{
    let w = PathStyle::Windows;
    let name = path::name_in(w, base)->0;
    let prefix = path::prefix_len(w, base);
    let cut = path::extension_start(name);
    let stem = name.take(cut);
    let b = path::backup_name(name, index);
    path::lemma_name(w, base);
    lemma_literal_backup(base, index);
    path::lemma_backup_name_parts(name, index);
    path::lemma_last_dot_is_one(name);
    let outset = literal_outset(base);
    let empty = Seq::<char>::empty();
    assert(outset == base.take(prefix)) by {
        assert(base.take(prefix).take(prefix) == base.take(prefix));
    }
    assert forall|i: int| 1 <= i < stem.len() implies !Reading::Windows.separates(
        #[trigger] stem[i],
    ) by {
        assert(!path::is_separator(name[i]));
    }
    assert(stem[0] == name[0]);
    path::lemma_component_start_at(Reading::Windows, stem, 0, 1);
    assert(stem.take(0) == empty);
    assert(empty.take(0) == empty);
    assert(followed(Reading::Windows, outset, prefix, empty) == outset);
    if cut > 1 {
        assert(b[1] == name[1]);
    } else {
        assert(b[1] == '.');
    }
    assert(!path::begins_twice(b));
    let rest = name.skip(cut);
    assert forall|i: int| 0 <= i < rest.len() implies !path::is_separator(#[trigger] rest[i]) by {
        assert(rest[i] == name[cut + i]);
    }
    law_place_of_a_literal_backup(base, index);
    lemma_backup_component(name, index);
}

/// The name at the end of a path, read with slashes, where the path ends with a full
/// stop, digits, slashes and backslashes, and the name with a digit.
proof fn lemma_name_with_digits_last(base: Seq<char>, p: int, z: int, v: int)
    requires
        path::name_in(PathStyle::Slash, base) is Some,
        text::is_digit(path::name_in(PathStyle::Slash, base)->0.last()),
        0 < p < z - 1,
        z <= v <= base.len(),
        base[0] != '/',
        base[p] == '.',
        forall|i: int| p < i < z ==> text::is_digit(#[trigger] base[i]),
        forall|i: int| z <= i < v ==> #[trigger] base[i] == '/',
        forall|i: int| v <= i < base.len() ==> #[trigger] base[i] == '\\',
    ensures
        0 <= path::name_start(PathStyle::Slash, base) <= p,
        path::name_in(PathStyle::Slash, base)->0 == base.subrange(
            path::name_start(PathStyle::Slash, base),
            z,
        ),
{
    let s = PathStyle::Slash;
    let r = Reading::Slash;
    let n = path::name_in(s, base)->0;
    let a = path::trimmed_path(s, base).len() as int;
    let k = path::name_start(s, base);
    path::lemma_name(s, base);
    assert(path::root_len(s, base) == 0);
    path::lemma_settled(r, base, 0);
    path::lemma_settled_away(r, base, 0);
    assert(n.last() == base[a - 1]);
    if a < z {
        assert(text::is_digit(base[z - 1]));
        assert(path::falls_away(r, base, z - 1));
    }
    if a > z {
        if a - 1 < v {
            assert(base[a - 1] == '/');
        } else {
            assert(base[a - 1] == '\\');
        }
    }
    if k > p {
        assert(r.separates(base[k - 1]));
        if k - 1 > p {
            assert(text::is_digit(base[k - 1]));
        }
    }
}

/// Whether the name of a literal path has a number for an extension. Slashes may
/// follow it.
spec fn is_literal_number(base: Seq<char>, i: nat) -> bool {
    let m = path::name_in(PathStyle::Windows, base)->0;
    let rest = m.skip(path::extension_start(m));
    let n = text::decimal(i).len() as int;
    &&& rest.len() > n
    &&& rest.take(n + 1) == seq!['.'] + text::decimal(i)
    &&& forall|q: int| n < q < rest.len() ==> path::is_separator(#[trigger] rest[q])
}

/// A part of a text that begins with a full stop and a number, and goes on with
/// slashes.
proof fn lemma_number_and_slashes(base: Seq<char>, p: int, v: int, i: nat)
    requires
        0 <= p < v <= base.len(),
        v - p > text::decimal(i).len(),
        base.subrange(p, v).take(text::decimal(i).len() + 1int) == seq!['.'] + text::decimal(i),
        forall|q: int|
            text::decimal(i).len() < q < v - p ==> #[trigger] base.subrange(p, v)[q] == '/',
    ensures
        ({
            let z = p + 1 + text::decimal(i).len();
            &&& p < z - 1
            &&& base.subrange(p, z) == seq!['.'] + text::decimal(i)
            &&& forall|q: int| p < q < z ==> text::is_digit(#[trigger] base[q])
            &&& forall|q: int| z <= q < v ==> #[trigger] base[q] == '/'
        }),
{
    let di = text::decimal(i);
    let part = base.subrange(p, v);
    let z = p + 1 + di.len();
    path::lemma_digits_without_dots(i);
    assert(base.subrange(p, z) == part.take(di.len() + 1int));
    assert forall|q: int| p < q < z implies text::is_digit(#[trigger] base[q]) by {
        assert(base[q] == part.take(di.len() + 1int)[q - p]);
        assert(part.take(di.len() + 1int)[q - p] == di[q - p - 1]);
    }
    assert forall|q: int| z <= q < v implies #[trigger] base[q] == '/' by {
        assert(base[q] == part[q - p]);
    }
}

/// What such a path ends with.
proof fn lemma_literal_number(base: Seq<char>, i: nat)
    requires
        path::is_literal(PathStyle::Windows, base),
        path::name_in(PathStyle::Windows, base) is Some,
        is_literal_number(base, i),
    ensures
        ({
            let w = PathStyle::Windows;
            let m = path::name_in(w, base)->0;
            let p = path::name_start(w, base) + path::extension_start(m);
            let z = p + 1 + text::decimal(i).len();
            let v = path::trimmed_path(w, base).len() as int;
            &&& 0 < p < z - 1
            &&& z <= v <= base.len()
            &&& base.subrange(p, z) == seq!['.'] + text::decimal(i)
            &&& forall|q: int| p < q < z ==> text::is_digit(#[trigger] base[q])
            &&& forall|q: int| z <= q < v ==> #[trigger] base[q] == '/'
            &&& forall|q: int| v <= q < base.len() ==> #[trigger] base[q] == '\\'
        }),
{
    let w = PathStyle::Windows;
    let m = path::name_in(w, base)->0;
    let cut = path::extension_start(m);
    let rest = m.skip(cut);
    let p = path::name_start(w, base) + cut;
    let v = path::trimmed_path(w, base).len() as int;
    path::lemma_name(w, base);
    path::lemma_last_dot(m);
    path::lemma_settled_away(Reading::Literal, base, path::root_len(w, base));
    assert(base.subrange(p, v) == rest);
    let n = text::decimal(i).len() as int;
    assert forall|q: int| n < q < rest.len() implies #[trigger] rest[q] == '/' by {
        assert(path::is_separator(rest[q]));
        assert(!Reading::Literal.separates(m[cut + q]));
    }
    lemma_number_and_slashes(base, p, v, i);
    assert forall|q: int| v <= q < base.len() implies #[trigger] base[q] == '\\' by {
        assert(path::falls_away(Reading::Literal, base, q));
    }
}

/// The case of `lemma_backups_of_two_styles` in which the path is literal on Windows,
/// and its name has an extension there but none with slashes.
#[verifier::spinoff_prover]
proof fn lemma_literal_extension_against_number(
    base: Seq<char>,
    x: Seq<char>,
    i: nat,
    y: Seq<char>,
    j: nat,
)
    requires
        path::is_literal(PathStyle::Windows, base),
        path::name_in(PathStyle::Slash, base) is Some,
        path::name_in(PathStyle::Windows, base) is Some,
        path::last_dot(path::name_in(PathStyle::Slash, base)->0) <= 0,
        path::ends_with(x, path::name_in(PathStyle::Slash, base)->0),
        x == y.push('.') + text::decimal(j),
        is_literal_number(base, i),
    ensures
        i == j,
{
    let (s, w) = (PathStyle::Slash, PathStyle::Windows);
    let n = path::name_in(s, base)->0;
    let m = path::name_in(w, base)->0;
    let (di, dj) = (text::decimal(i), text::decimal(j));
    let p = path::name_start(w, base) + path::extension_start(m);
    let z = p + 1 + di.len();
    let ks = path::name_start(s, base);
    lemma_literal_number(base, i);
    path::lemma_name(s, base);
    path::lemma_digits_without_dots(i);
    path::lemma_digits_without_dots(j);
    assert(n.last() == x.last()) by {
        assert(x.skip(x.len() - n.len())[n.len() - 1] == n.last());
    }
    assert(x.last() == dj[dj.len() - 1]);
    assert(base[p] == base.subrange(p, z)[0]);
    lemma_name_with_digits_last(base, p, z, path::trimmed_path(w, base).len() as int);
    assert(n[p - ks] == base[p]);
    path::lemma_last_dot_is_one(n);
    assert(p == ks);
    let before = x.take(x.len() - n.len());
    assert(x == before + n);
    assert(before + (seq!['.'] + di) == before.push('.') + di);
    path::lemma_split_at_last_dot(before, di, y, dj);
    text::law_decimal_is_injective(i, j);
}

/// A name without an extension that ends with a number after a full stop is that
/// number alone.
proof fn lemma_hidden_number(dir: Seq<char>, m: Seq<char>, k: int, x: Seq<char>, i: nat)
    requires
        path::last_dot(m) <= 0,
        0 <= k <= m.len(),
        dir.push('\\') + m.skip(k) == x.push('.') + text::decimal(i),
    ensures
        m == seq!['.'] + text::decimal(i),
{
    let di = text::decimal(i);
    let part = m.skip(k);
    let y = dir.push('\\') + part;
    let at = x.len() as int;
    let d = dir.len() as int;
    path::lemma_digits_without_dots(i);
    path::lemma_last_dot_is_one(m);
    assert(y[at] == '.');
    assert(y[d] == '\\');
    if d > at {
        assert(d < (x.push('.') + di).len());
        assert((x.push('.') + di)[d] == di[d - (at + 1)]);
        assert(text::is_digit(di[d - (at + 1)]));
    }
    assert(at < (x.push('.') + di).len());
    assert((x.push('.') + di)[at] == '.');
    assert(d < at < y.len());
    assert(y[at] == part[at - (d + 1)]);
    assert(part[at - (d + 1)] == m[k + at - (d + 1)]);
    assert(k == 0 && at == d + 1);
    assert(m == part);
    assert(part == y.skip(at));
    assert((x.push('.') + di).skip(at) == seq!['.'] + di);
}

/// The extension, read with slashes, of a literal path whose name on Windows is a
/// full stop and a number.
proof fn lemma_hidden_number_is_extension(base: Seq<char>, i: nat)
    requires
        path::is_literal(PathStyle::Windows, base),
        path::name_in(PathStyle::Slash, base) is Some,
        path::name_in(PathStyle::Windows, base) is Some,
        path::name_in(PathStyle::Windows, base)->0 == seq!['.'] + text::decimal(i),
        text::is_digit(path::name_in(PathStyle::Slash, base)->0.last()),
    ensures
        ({
            let n = path::name_in(PathStyle::Slash, base)->0;
            n.skip(path::last_dot(n) + 1) == text::decimal(i)
        }),
{
    let (s, w) = (PathStyle::Slash, PathStyle::Windows);
    let n = path::name_in(s, base)->0;
    let m = path::name_in(w, base)->0;
    let p = path::name_start(w, base);
    let v = path::trimmed_path(w, base).len() as int;
    path::lemma_name(w, base);
    path::lemma_settled_away(Reading::Literal, base, path::root_len(w, base));
    assert(base.subrange(p, v) == m);
    assert(m.take(m.len() as int) == m);
    lemma_number_and_slashes(base, p, v, i);
    assert(base[p] == m[0]);
    assert forall|q: int| v <= q < base.len() implies #[trigger] base[q] == '\\' by {
        assert(path::falls_away(Reading::Literal, base, q));
    }
    path::lemma_root(w, base);
    lemma_name_with_digits_last(base, p, v, v);
    lemma_number_behind_dot(n, base, path::name_start(s, base), p, v, i);
}

/// The extension of a part of a text that ends with a full stop and a number.
proof fn lemma_number_behind_dot(n: Seq<char>, base: Seq<char>, k: int, p: int, v: int, i: nat)
    requires
        0 <= k <= p < v <= base.len(),
        n == base.subrange(k, v),
        base.subrange(p, v) == seq!['.'] + text::decimal(i),
    ensures
        path::last_dot(n) == p - k,
        n.skip(path::last_dot(n) + 1) == text::decimal(i),
{
    let di = text::decimal(i);
    let part = base.subrange(p, v);
    path::lemma_digits_without_dots(i);
    assert(n[p - k] == part[0]);
    assert forall|q: int| p - k < q < n.len() implies #[trigger] n[q] != '.' by {
        let x = q - (p - k);
        assert(n[q] == part[x]);
        assert(0 < x < part.len());
        assert((seq!['.'] + di)[x] == di[x - 1]);
    }
    path::lemma_last_dot_at(n, p - k);
    assert(n.skip(p - k + 1) == part.skip(1));
    assert((seq!['.'] + di).skip(1) == di);
}

/// The case of `lemma_backups_of_two_styles` in which the path is literal on Windows,
/// and its name has no extension there but one with slashes.
#[verifier::spinoff_prover]
proof fn lemma_literal_number_against_extension(
    base: Seq<char>,
    x: Seq<char>,
    i: nat,
    y: Seq<char>,
    j: nat,
)
    requires
        path::is_literal(PathStyle::Windows, base),
        path::name_in(PathStyle::Slash, base) is Some,
        path::name_in(PathStyle::Windows, base) is Some,
        path::last_dot(path::name_in(PathStyle::Slash, base)->0) > 0,
        path::last_dot(path::name_in(PathStyle::Windows, base)->0) <= 0,
        x.len() > 0,
        x.push('.') + text::decimal(i) == y,
        ({
            let n = path::name_in(PathStyle::Slash, base)->0;
            n.skip(path::last_dot(n) + 1) == text::decimal(j)
        }),
        ({
            let w = PathStyle::Windows;
            let m = path::name_in(w, base)->0;
            ||| y == m
            ||| y == number_head(literal_outset(base), path::prefix_len(w, base), m)
        }),
    ensures
        i == j,
{
    let (s, w) = (PathStyle::Slash, PathStyle::Windows);
    let n = path::name_in(s, base)->0;
    let m = path::name_in(w, base)->0;
    let dj = text::decimal(j);
    lemma_literal_backup(base, i);
    path::lemma_digits_without_dots(j);
    path::lemma_last_dot(n);
    if y == m {
        path::lemma_last_dot_is_one(m);
        assert(y[x.len() as int] == '.');
    } else {
        let dir = lemma_number_head(literal_outset(base), path::prefix_len(w, base), m);
        lemma_hidden_number(dir, m, path::component_start(Reading::Windows, m, 0), x, i);
        assert(n.skip(path::last_dot(n) + 1)[dj.len() - 1] == n.last());
        assert(text::is_digit(dj[dj.len() - 1]));
        lemma_hidden_number_is_extension(base, i);
        text::law_decimal_is_injective(i, j);
    }
}

/// The backup of a literal path as a text with a number in it.
proof fn lemma_literal_backup_parts(base: Seq<char>, j: nat) -> (y: Seq<char>)
    requires
        path::is_literal(PathStyle::Windows, base),
        path::name_in(PathStyle::Windows, base) is Some,
    ensures
        ({
            let w = PathStyle::Windows;
            let m = path::name_in(w, base)->0;
            let cut = path::extension_start(m);
            let (stem, rest) = (m.take(cut), m.skip(cut));
            let t = path::backup_in(w, base, j);
            ||| y == stem && path::is_numbered(t, y, j, rest)
            ||| y == number_head(literal_outset(base), path::prefix_len(w, base), stem)
                && path::is_numbered(t, y, j, number_tail(rest))
        }),
{
    let w = PathStyle::Windows;
    let m = path::name_in(w, base)->0;
    let cut = path::extension_start(m);
    lemma_literal_backup(base, j);
    path::lemma_backup_name_parts(m, j);
    lemma_number_tail(m.skip(cut));
    if path::prefix_len(w, path::backup_name(m, j)) > 0 {
        m.take(cut)
    } else {
        number_head(literal_outset(base), path::prefix_len(w, base), m.take(cut))
    }
}

/// Two numbers give two paths, even where one is written in the style of slashes and
/// the other is a literal path of Windows.
#[verifier::spinoff_prover]
pub(crate) proof fn lemma_literal_backups_of_two_styles(base: Seq<char>, i: nat, j: nat)
    requires
        path::is_literal(PathStyle::Windows, base),
        path::name_in(PathStyle::Slash, base) is Some,
        path::name_in(PathStyle::Windows, base) is Some,
        path::backup_in(PathStyle::Slash, base, i) == path::backup_in(PathStyle::Windows, base, j),
    ensures
        i == j,
{
    let (s, w) = (PathStyle::Slash, PathStyle::Windows);
    let (n, m) = (path::name_in(s, base)->0, path::name_in(w, base)->0);
    let (e, rest) = (n.skip(path::extension_start(n)), m.skip(path::extension_start(m)));
    let t = path::backup_in(w, base, j);
    let x = path::lemma_backup_parts(s, base, i);
    let y = lemma_literal_backup_parts(base, j);
    path::lemma_backup_name_parts(n, i);
    path::lemma_backup_name_parts(m, j);
    lemma_number_tail(rest);
    let f = if path::is_numbered(t, y, j, rest) {
        rest
    } else {
        number_tail(rest)
    };
    path::lemma_two_numbers(t, x, i, e, y, j, f);
    if e.len() > 0 && f.len() == 0 {
        assert(m.take(path::extension_start(m)) == m);
        lemma_extension_is_number(n, j);
        path::lemma_last_dot(m);
        lemma_literal_number_against_extension(base, x, i, y, j);
    } else if e.len() == 0 && f.len() > 0 {
        assert(n.take(path::extension_start(n)) == n);
        path::lemma_last_dot(n);
        lemma_rest_of_digits(rest, f, i);
        lemma_literal_extension_against_number(base, x, i, y, j);
    }
}

/// A name whose extension is a number.
proof fn lemma_extension_is_number(n: Seq<char>, j: nat)
    requires
        n.skip(path::extension_start(n)) == seq!['.'] + text::decimal(j),
    ensures
        path::last_dot(n) > 0,
        n.skip(path::last_dot(n) + 1) == text::decimal(j),
{
    let rest = n.skip(path::extension_start(n));
    path::lemma_last_dot(n);
    assert(rest.len() > 0);
    assert(n.skip(path::last_dot(n) + 1) == rest.skip(1));
    assert((seq!['.'] + text::decimal(j)).skip(1) == text::decimal(j));
}

/// An extension that is a number, or leads to one, is that number, and slashes.
proof fn lemma_rest_of_digits(rest: Seq<char>, f: Seq<char>, i: nat)
    requires
        path::is_extension(rest),
        f == rest || f == number_tail(rest),
        f.len() > 0,
        f == seq!['.'] + text::decimal(i),
    ensures
        rest.len() > text::decimal(i).len(),
        rest.take(text::decimal(i).len() + 1int) == seq!['.'] + text::decimal(i),
        forall|q: int|
            text::decimal(i).len() < q < rest.len() ==> path::is_separator(#[trigger] rest[q]),
{
    lemma_number_tail(rest);
    if f == rest {
        assert(rest.take(text::decimal(i).len() + 1int) == rest);
    } else {
        lemma_number_tail_of_digits(rest, i);
    }
}

/// An extension that leads to a number alone is that number, and slashes.
proof fn lemma_number_tail_of_digits(rest: Seq<char>, i: nat)
    requires
        path::is_extension(rest),
        rest.len() > 0,
        number_tail(rest) == seq!['.'] + text::decimal(i),
    ensures
        rest.len() > text::decimal(i).len(),
        rest.take(text::decimal(i).len() + 1int) == seq!['.'] + text::decimal(i),
        forall|q: int| text::decimal(i).len() < q < rest.len() ==> path::is_separator(#[trigger] rest[q]),
{
    let r = Reading::Windows;
    let class = r.separators();
    let di = text::decimal(i);
    let e = seq!['.'] + di;
    path::lemma_digits_without_dots(i);
    text::lemma_find_from(rest, class, 0);
    let q = text::find_from(rest, class, 0);
    if q < rest.len() {
        let further = rest.skip(q + 1);
        assert forall|k: int| 0 <= k < further.len() implies #[trigger] further[k] != '.' by {
            assert(further[k] == rest[q + 1 + k]);
        }
        lemma_followed_text(r, further);
        let g = followed(r, Seq::<char>::empty(), 0, further);
        assert(e == rest.take(q) + g);
        assert(q >= 1);
        if g.len() > 0 {
            assert(q < e.len());
            assert(e[q] == g[0]);
            assert((seq!['.'] + di)[q] == di[q - 1]);
        }
        assert(rest.take(q) =~= e);
        assert forall|k: int| di.len() < k < rest.len() implies path::is_separator(#[trigger] rest[k]) by {
            if k > q {
                assert(r.separates(further[k - q - 1]));
            }
        }
    } else {
        assert(rest.take(di.len() + 1int) =~= e);
    }
}

/// A route without a backslash at an end or next to another is written as it is.
proof fn lemma_followed_as_written(at: Seq<char>, prefix: int, route: Seq<char>)
    requires
        route.len() > 0,
        route[0] != '\\' && route.last() != '\\',
        forall|i: int|
            0 <= i < route.len() - 1 && #[trigger] route[i] == '\\' ==> route[i + 1] != '\\',
    ensures
        followed(Reading::Literal, at, prefix, route) == at.push('\\') + route,
    decreases route.len(),
{
    let class = Reading::Literal.separators();
    text::lemma_find_from(route, class, 0);
    let end = text::find_from(route, class, 0);
    let piece = route.take(end);
    if end < route.len() {
        let rest = route.skip(end + 1);
        assert(route[end] == '\\');
        assert(end > 0 && end < route.len() - 1);
        assert(rest[0] == route[end + 1]);
        assert(rest.last() == route.last());
        assert forall|i: int|
            0 <= i < rest.len() - 1 && #[trigger] rest[i] == '\\' implies rest[i + 1] != '\\' by {
            assert(route[end + 1 + i] == '\\');
            assert(rest[i + 1] == route[end + 1 + i + 1]);
        }
        let next = at.push('\\') + piece;
        lemma_followed_as_written(next, prefix, rest);
        assert(next.push('\\') + rest == at.push('\\') + route);
    } else {
        assert(piece == route);
    }
}

/// The backup of a file in a directory on a drive whose path is taken literally stands in
/// the same directory.
pub proof fn law_literal_backup_stands_in_the_same_directory(
    base: &str,
    letter: char,
    dirs: Seq<char>,
    name: &str,
    index: u32,
    b: String,
    r: String,
    end: Option<String>,
)
    requires
        call_ensures(path::backup_path_in, (PathStyle::Windows, base, index), r),
        call_ensures(path::backup_file_name, (name, index), b),
        call_ensures(path::final_name, (PathStyle::Windows, base), end),
        base@ == seq!['\\', '\\', '?', '\\', letter, ':'] + dirs + seq!['\\'] + name@,
        'a' <= letter && letter <= 'z' || 'A' <= letter && letter <= 'Z',
        dirs.len() > 0 ==> dirs[0] == '\\' && dirs.last() != '\\',
        forall|i: int|
            0 <= i < dirs.len() - 1 && #[trigger] dirs[i] == '\\' ==> dirs[i + 1] != '\\',
        name@.len() > 0 && name@ != seq!['.'] && name@ != seq!['.', '.'],
        forall|i: int|
            0 <= i < name@.len() ==> #[trigger] name@[i] != '/' && name@[i] != '\\' && name@[i]
                != ':',
    ensures
        end is Some && end->0@ == name@,
        r@ == seq!['\\', '\\', '?', '\\', letter, ':'] + dirs + seq!['\\'] + b@,
{
    let w = PathStyle::Windows;
    let rd = Reading::Literal;
    let t = base@;
    let n = name@;
    let head = seq!['\\', '\\', '?', '\\', letter, ':'];
    let dir = head + dirs;
    assert(t == dir.push('\\') + n);
    assert(t[0] == '\\' && t[1] == '\\' && t[2] == '?' && t[3] == '\\' && t[4] == letter && t[5]
        == ':');
    assert(dirs.len() > 0 ==> t[6] == dirs[0]);
    assert(t[6] == '\\');
    assert(path::prefix_len(w, t) == 6);
    assert(path::root_len(w, t) == 7);
    assert forall|i: int| 0 <= i < n.len() implies !rd.separates(#[trigger] n[i]) by {
        assert(name@[i] != '\\');
    }
    assert(t.take(6) == head);
    if dirs.len() > 0 {
        assert(dir.last() == dirs.last());
        path::lemma_settled_stays(rd, dir, 7);
        path::lemma_read_back(w, t, dir, '\\', n);
        let route = dirs.skip(1);
        assert(dir.skip(7) == route);
        if dirs.len() > 1 {
            assert(route.last() == dirs.last());
            assert(dirs[0] == '\\');
            assert(route[0] == dirs[1]);
            assert forall|i: int|
                0 <= i < route.len() - 1 && #[trigger] route[i] == '\\' implies route[i + 1]
                != '\\' by {
                assert(dirs[i + 1] == '\\');
                assert(dirs[i + 2] == route[i + 1]);
            }
            lemma_followed_as_written(head, 6, route);
            assert(head.push('\\') + route == dir);
        } else {
            assert(dirs[0] == dirs.last());
        }
    } else {
        let empty = Seq::<char>::empty();
        assert(dir == head);
        path::lemma_read_back(w, t, dir.push('\\'), '\\', n);
        assert(dir.push('\\').skip(7) == empty);
        assert(empty.take(0) == empty);
        text::lemma_find_from(empty, rd.separators(), 0);
        assert(followed(rd, head, 6, empty) == head);
    }
    assert(path::directory_in(w, t) == dir);
    if n.len() > 1 {
        assert(name@[1] != ':');
    }
    assert forall|i: int| 0 <= i < n.len() implies !path::is_separator(#[trigger] n[i]) by {
        assert(name@[i] != '/');
    }
    lemma_literal_backup_shape(t, index as nat);
    assert(dir.push('\\') + b@ == head + dirs + seq!['\\'] + b@);
}

/// The backup of a file on a network share whose path is taken literally stands in the
/// same directory.
pub proof fn law_literal_backup_stays_on_its_share(
    base: &str,
    server: Seq<char>,
    share: Seq<char>,
    dirs: Seq<char>,
    name: &str,
    index: u32,
    b: String,
    r: String,
    end: Option<String>,
)
    requires
        call_ensures(path::backup_path_in, (PathStyle::Windows, base, index), r),
        call_ensures(path::backup_file_name, (name, index), b),
        call_ensures(path::final_name, (PathStyle::Windows, base), end),
        base@ == seq!['\\', '\\', '?', '\\', 'U', 'N', 'C', '\\'] + server + seq!['\\'] + share
            + dirs + seq!['\\'] + name@,
        server.len() > 0,
        share.len() > 0,
        forall|i: int| 0 <= i < server.len() ==> #[trigger] server[i] != '\\',
        forall|i: int| 0 <= i < share.len() ==> #[trigger] share[i] != '\\',
        dirs.len() > 0 ==> dirs[0] == '\\' && dirs.last() != '\\',
        forall|i: int|
            0 <= i < dirs.len() - 1 && #[trigger] dirs[i] == '\\' ==> dirs[i + 1] != '\\',
        name@.len() > 0 && name@ != seq!['.'] && name@ != seq!['.', '.'],
        forall|i: int|
            0 <= i < name@.len() ==> #[trigger] name@[i] != '/' && name@[i] != '\\' && name@[i]
                != ':',
    ensures
        end is Some && end->0@ == name@,
        r@ == seq!['\\', '\\', '?', '\\', 'U', 'N', 'C', '\\'] + server + seq!['\\'] + share + dirs
            + seq!['\\'] + b@,
{
    let w = PathStyle::Windows;
    let rd = Reading::Literal;
    let one = CharClass::One('\\');
    let t = base@;
    let n = name@;
    let head = seq!['\\', '\\', '?', '\\', 'U', 'N', 'C', '\\'] + server + seq!['\\'] + share;
    let dir = head + dirs;
    let (a, z) = (8 + server.len() as int, head.len() as int);
    assert(t == dir.push('\\') + n);
    assert(t[0] == '\\' && t[1] == '\\' && t[2] == '?' && t[3] == '\\' && t[4] == 'U' && t[5] == 'N'
        && t[6] == 'C' && t[7] == '\\' && t[a] == '\\');
    assert forall|i: int| 8 <= i < a implies #[trigger] t[i] != '\\' by {
        assert(t[i] == server[i - 8]);
    }
    assert forall|i: int| a < i < z implies #[trigger] t[i] != '\\' by {
        assert(t[i] == share[i - a - 1]);
    }
    assert(dirs.len() > 0 ==> t[z] == dirs[0]);
    assert(t[z] == '\\');
    text::lemma_find_from(t, one, 8);
    text::lemma_find_from(t, one, a + 1);
    assert(path::prefix_len(w, t) == z);
    assert(path::root_len(w, t) == z + 1);
    assert forall|i: int| 0 <= i < n.len() implies !rd.separates(#[trigger] n[i]) by {
        assert(name@[i] != '\\');
    }
    assert(t.take(z) == head);
    if dirs.len() > 0 {
        assert(dir.last() == dirs.last());
        path::lemma_settled_stays(rd, dir, z + 1);
        path::lemma_read_back(w, t, dir, '\\', n);
        let route = dirs.skip(1);
        assert(dir.skip(z + 1) == route);
        if dirs.len() > 1 {
            assert(route.last() == dirs.last());
            assert(dirs[0] == '\\');
            assert(route[0] == dirs[1]);
            assert forall|i: int|
                0 <= i < route.len() - 1 && #[trigger] route[i] == '\\' implies route[i + 1]
                != '\\' by {
                assert(dirs[i + 1] == '\\');
                assert(dirs[i + 2] == route[i + 1]);
            }
            lemma_followed_as_written(head, z, route);
            assert(head.push('\\') + route == dir);
        } else {
            assert(dirs[0] == dirs.last());
        }
    } else {
        let empty = Seq::<char>::empty();
        assert(dir == head);
        path::lemma_read_back(w, t, dir.push('\\'), '\\', n);
        assert(dir.push('\\').skip(z + 1) == empty);
        assert(empty.take(0) == empty);
        text::lemma_find_from(empty, rd.separators(), 0);
        assert(followed(rd, head, z, empty) == head);
    }
    assert(path::directory_in(w, t) == dir);
    if n.len() > 1 {
        assert(name@[1] != ':');
    }
    assert forall|i: int| 0 <= i < n.len() implies !path::is_separator(#[trigger] n[i]) by {
        assert(name@[i] != '/');
    }
    lemma_literal_backup_shape(t, index as nat);
    assert(dir.push('\\') + b@ == head + dirs + seq!['\\'] + b@);
}

} // verus!
