//! The final component of a path, and the paths of numbered backups.
use vstd::prelude::*;

use crate::literal;
use crate::text;
use crate::text::{find, from_chars, push_decimal, to_chars, CharClass};

verus! {

/// Whether `c` separates the components of a path on some system.
pub open spec fn is_separator(c: char) -> bool {
    c == '/' || c == '\\'
}

/// The two ways in which systems write paths.
#[derive(Debug, Clone, Copy, PartialEq, Eq, Structural)]
pub enum PathStyle {
    /// Components are separated by slashes.
    Slash,
    /// Components are separated by backslashes and slashes, and a path may begin
    /// with a drive, a network share or a device.
    Windows,
}

impl PathStyle {
    /// Whether `c` separates components.
    pub open spec fn separates(self, c: char) -> bool {
        c == '/' || (self is Windows && c == '\\')
    }

    /// The separator that is put between a directory and a name.
    pub open spec fn separator(self) -> char {
        match self {
            PathStyle::Slash => '/',
            PathStyle::Windows => '\\',
        }
    }

    /// Tests whether `c` separates components.
    fn is_separating(&self, c: char) -> (r: bool)
        ensures
            r == self.separates(c),
    {
        match *self {
            PathStyle::Slash => c == '/',
            PathStyle::Windows => c == '/' || c == '\\',
        }
    }
}

/// `std::path::is_separator` tells whether the character is one of the permitted
/// path separators of the platform. Only the slash and the backslash are such.
pub assume_specification[ std::path::is_separator ](c: char) -> (r: bool)
    ensures
        r ==> is_separator(c),
;

impl PathStyle {
    /// The style of a system on which a backslash separates components, or does not.
    pub fn of(backslash_separates: bool) -> (style: PathStyle)
        ensures
            style == (if backslash_separates {
                PathStyle::Windows
            } else {
                PathStyle::Slash
            }),
    {
        if backslash_separates {
            PathStyle::Windows
        } else {
            PathStyle::Slash
        }
    }
}

/// Whether `style` is one that the system's answer on the backslash gives: Windows if
/// `std::path::is_separator` says that it separates, and slashes if not.
pub open spec fn is_system_style(style: PathStyle) -> bool {
    call_ensures(std::path::is_separator, ('\\',), style is Windows)
}

/// The style of the system that the program runs on: the one that the system's answer
/// on the backslash gives. Which answer it gives rests on the system.
pub(crate) fn system_style() -> (style: PathStyle)
    ensures
        is_system_style(style),
{
    PathStyle::of(std::path::is_separator('\\'))
}

/// How the components of one path are told apart.
#[derive(Debug, Clone, Copy, PartialEq, Eq, Structural)]
pub enum Reading {
    /// Slashes separate.
    Slash,
    /// Slashes and backslashes separate.
    Windows,
    /// Backslashes separate, and a full stop is a component like any other.
    Literal,
}

impl Reading {
    /// The characters that separate components.
    pub open spec fn separators(self) -> CharClass {
        match self {
            Reading::Slash => CharClass::One('/'),
            Reading::Windows => CharClass::PathSeparator,
            Reading::Literal => CharClass::One('\\'),
        }
    }

    /// Whether `c` separates components.
    pub open spec fn separates(self, c: char) -> bool {
        match self {
            Reading::Slash => c == '/',
            Reading::Windows => c == '/' || c == '\\',
            Reading::Literal => c == '\\',
        }
    }

    /// Tells the characters that separate components.
    pub(crate) fn class(&self) -> (class: CharClass)
        ensures
            class == self.separators(),
    {
        match *self {
            Reading::Slash => CharClass::One('/'),
            Reading::Windows => CharClass::PathSeparator,
            Reading::Literal => CharClass::One('\\'),
        }
    }

    /// Tests whether the components are those of a literal path.
    pub(crate) fn is_literal(&self) -> (r: bool)
        ensures
            r == (self is Literal),
    {
        matches!(*self, Reading::Literal)
    }
}

/// Whether a drive stands at `at`: a letter and a colon.
pub open spec fn is_drive_at(path: Seq<char>, at: int) -> bool {
    &&& path.len() >= at + 2
    &&& path[at + 1] == ':'
    &&& 'a' <= path[at] <= 'z' || 'A' <= path[at] <= 'Z'
}

/// Tests whether a drive stands at `at`.
fn has_drive_at(path: &[char], at: usize) -> (r: bool)
    requires
        at <= 4,
    ensures
        r == is_drive_at(path@, at as int),
{
    path.len() >= at + 2 && path[at + 1] == ':' && (('a' <= path[at] && path[at] <= 'z') || ('A'
        <= path[at] && path[at] <= 'Z'))
}

/// How many characters at the beginning of a path are a drive.
pub open spec fn drive_len(style: PathStyle, path: Seq<char>) -> int {
    if style is Windows && is_drive_at(path, 0) {
        2
    } else {
        0
    }
}

/// Counts the characters that are a drive.
fn drive_of(style: PathStyle, path: &[char]) -> (n: usize)
    ensures
        n == drive_len(style, path@),
        n <= path@.len(),
{
    if let PathStyle::Windows = style {
        if has_drive_at(path, 0) {
            return 2;
        }
    }
    0
}

/// Whether a path begins with two separators, as network and device paths do on
/// Windows.
pub open spec fn begins_twice(path: Seq<char>) -> bool {
    path.len() >= 2 && is_separator(path[0]) && is_separator(path[1])
}

/// Whether a path begins with `\\?\`, and so is taken literally on Windows.
pub open spec fn is_literal(style: PathStyle, path: Seq<char>) -> bool {
    &&& style is Windows
    &&& path.len() >= 4
    &&& path[0] == '\\' && path[1] == '\\' && path[2] == '?' && path[3] == '\\'
}

/// Whether a literal path begins with `\\?\UNC\`, and so is one on a network share.
pub open spec fn is_literal_share(path: Seq<char>) -> bool {
    &&& path.len() >= 8
    &&& path[4] == 'U' && path[5] == 'N' && path[6] == 'C' && is_separator(path[7])
}

/// The end of the server's name in a literal path on a network share.
pub open spec fn literal_server_end(path: Seq<char>) -> int {
    text::find_from(path, CharClass::One('\\'), 8)
}

/// The end of the share's name in a literal path on a network share.
pub open spec fn literal_share_end(path: Seq<char>) -> int {
    text::find_from(path, CharClass::One('\\'), literal_server_end(path) + 1)
}

/// Whether a literal path on a network share has a name for the share.
pub open spec fn literal_share_is_named(path: Seq<char>) -> bool {
    &&& literal_server_end(path) < path.len()
    &&& literal_server_end(path) + 1 < literal_share_end(path)
}

/// The length of what a literal path begins with, as `\\?\C:`, `\\?\UNC\server\share`
/// or `\\?\volume`.
pub open spec fn literal_prefix_len(path: Seq<char>) -> int {
    if is_literal_share(path) {
        if literal_share_is_named(path) {
            literal_share_end(path)
        } else {
            literal_server_end(path)
        }
    } else if is_drive_at(path, 4) && (path.len() == 6 || is_separator(path[6])) {
        6
    } else {
        text::find_from(path, CharClass::One('\\'), 4)
    }
}

/// Whether a path is that of a device on Windows, such as `\\.\COM42`.
pub open spec fn is_device(path: Seq<char>) -> bool {
    begins_twice(path) && path.len() >= 4 && path[2] == '.' && is_separator(path[3])
}

/// The end of the server's name in a path that begins with two separators.
pub open spec fn server_end(path: Seq<char>) -> int {
    text::find_from(path, CharClass::PathSeparator, 2)
}

/// The end of the share's name in a path that begins with two separators.
pub open spec fn share_end(path: Seq<char>) -> int {
    text::find_from(path, CharClass::PathSeparator, server_end(path) + 1)
}

/// Whether a path that begins with two separators names a server and a share, as
/// `\\server\share` does.
pub open spec fn names_share(path: Seq<char>) -> bool {
    2 < server_end(path) < path.len() && server_end(path) + 1 < share_end(path)
}

/// How many characters at the beginning of a path say where it is to be looked for:
/// a drive, a network share or a device.
pub open spec fn prefix_len(style: PathStyle, path: Seq<char>) -> int {
    if is_literal(style, path) {
        literal_prefix_len(path)
    } else if style is Windows && begins_twice(path) {
        if is_device(path) {
            text::find_from(path, CharClass::PathSeparator, 4)
        } else if names_share(path) {
            share_end(path)
        } else {
            0
        }
    } else {
        drive_len(style, path)
    }
}

/// Tests whether a path is taken literally.
fn is_taken_literally(style: PathStyle, path: &[char]) -> (r: bool)
    ensures
        r == is_literal(style, path@),
{
    match style {
        PathStyle::Slash => false,
        PathStyle::Windows => path.len() >= 4 && path[0] == '\\' && path[1] == '\\' && path[2]
            == '?' && path[3] == '\\',
    }
}

/// Counts what a literal path begins with.
fn literal_prefix_of(path: &[char]) -> (n: usize)
    requires
        path@.len() >= 4,
    ensures
        n == literal_prefix_len(path@),
        4 <= n <= path@.len(),
{
    let len: usize = path.len();
    let class: CharClass = CharClass::One('\\');
    if len >= 8 && path[4] == 'U' && path[5] == 'N' && path[6] == 'C'
        && CharClass::PathSeparator.contains(path[7]) {
        let server: usize = find(path, class, 8);
        if server < len {
            let share: usize = find(path, class, server + 1);
            if share > server + 1 {
                return share;
            }
        }
        return server;
    }
    if has_drive_at(path, 4) && (len == 6 || CharClass::PathSeparator.contains(path[6])) {
        return 6;
    }
    find(path, class, 4)
}

/// Counts the characters that say where a path is to be looked for.
pub(crate) fn prefix_of(style: PathStyle, path: &[char]) -> (n: usize)
    ensures
        n == prefix_len(style, path@),
        n <= path@.len(),
{
    if is_taken_literally(style, path) {
        return literal_prefix_of(path);
    }
    let len: usize = path.len();
    let class: CharClass = CharClass::PathSeparator;
    if let PathStyle::Windows = style {
        if len >= 2 && class.contains(path[0]) && class.contains(path[1]) {
            if len >= 4 && path[2] == '.' && class.contains(path[3]) {
                return find(path, class, 4);
            }
            let server: usize = find(path, class, 2);
            if server > 2 && server < len {
                let share: usize = find(path, class, server + 1);
                if share > server + 1 {
                    return share;
                }
            }
            return 0;
        }
    }
    drive_of(style, path)
}

/// How the components of a path are told apart.
pub open spec fn reading(style: PathStyle, path: Seq<char>) -> Reading {
    match style {
        PathStyle::Slash => Reading::Slash,
        PathStyle::Windows => if is_literal(style, path) {
            Reading::Literal
        } else {
            Reading::Windows
        },
    }
}

/// Tells how the components of a path are told apart.
fn reading_of(style: PathStyle, path: &[char]) -> (r: Reading)
    ensures
        r == reading(style, path@),
{
    match style {
        PathStyle::Slash => Reading::Slash,
        PathStyle::Windows => if is_taken_literally(style, path) {
            Reading::Literal
        } else {
            Reading::Windows
        },
    }
}

/// The length of what stands before the components of a path: a drive, share or
/// device, and a separator after it.
pub open spec fn root_len(style: PathStyle, path: Seq<char>) -> int {
    let prefix = prefix_len(style, path);
    if path.len() > prefix && style.separates(path[prefix]) {
        prefix + 1
    } else {
        prefix
    }
}

/// Tells the length of what stands before the components.
fn root_of(style: PathStyle, path: &[char]) -> (root: usize)
    ensures
        root == root_len(style, path@),
        root <= path@.len(),
{
    let prefix: usize = prefix_of(style, path);
    if path.len() > prefix && style.is_separating(path[prefix]) {
        prefix + 1
    } else {
        prefix
    }
}

/// A path without what means nothing at its end: separators, and full stops that
/// are components of their own, unless the path is taken literally. The first `root`
/// characters stay.
#[verifier::opaque]
pub open spec fn settled(reading: Reading, path: Seq<char>, root: int) -> Seq<char>
    decreases path.len(),
{
    if path.len() > root && path.len() > 0 && reading.separates(path.last()) {
        settled(reading, path.drop_last(), root)
    } else if path.len() > root && path.len() >= 2 && reading !is Literal && path.last() == '.'
        && reading.separates(path[path.len() - 2]) {
        settled(reading, path.drop_last(), root)
    } else {
        path
    }
}

/// Tells how much of the first `end` characters is left when what means nothing at
/// their end is gone.
fn settle(reading: Reading, path: &[char], root: usize, end: usize) -> (r: usize)
    requires
        root <= end <= path@.len(),
    ensures
        root <= r <= end,
        path@.take(r as int) == settled(reading, path@.take(end as int), root as int),
{
    let class: CharClass = reading.class();
    let mut r: usize = end;
    while r > root && (class.contains(path[r - 1]) || (r >= 2 && !reading.is_literal() && path[r
        - 1] == '.' && class.contains(path[r - 2])))
        invariant
            root <= r <= end <= path@.len(),
            class == reading.separators(),
            settled(reading, path@.take(end as int), root as int) == settled(
                reading,
                path@.take(r as int),
                root as int,
            ),
        decreases r,
    {
        proof {
            reveal(settled);
        }
        assert(path@.take(r as int).drop_last() == path@.take(r - 1));
        r = r - 1;
    }
    proof {
        reveal(settled);
    }
    r
}

/// Where the last component of a path begins.
#[verifier::opaque]
pub open spec fn component_start(reading: Reading, path: Seq<char>, root: int) -> int
    decreases path.len(),
{
    if path.len() <= root || path.len() == 0 || reading.separates(path.last()) {
        path.len() as int
    } else {
        component_start(reading, path.drop_last(), root)
    }
}

/// Finds where the last component of the first `end` characters begins.
pub(crate) fn start_of_component(
    reading: Reading,
    path: &[char],
    root: usize,
    end: usize,
) -> (r: usize)
    requires
        root <= end <= path@.len(),
    ensures
        root <= r <= end,
        r == component_start(reading, path@.take(end as int), root as int),
{
    let class: CharClass = reading.class();
    let mut r: usize = end;
    while r > root && !class.contains(path[r - 1])
        invariant
            root <= r <= end <= path@.len(),
            class == reading.separators(),
            component_start(reading, path@.take(end as int), root as int) == component_start(
                reading,
                path@.take(r as int),
                root as int,
            ),
        decreases r,
    {
        proof {
            reveal(component_start);
        }
        assert(path@.take(r as int).drop_last() == path@.take(r - 1));
        r = r - 1;
    }
    proof {
        reveal(component_start);
    }
    r
}

/// Whether a component is a name: not empty, and neither the directory itself nor
/// the one above it.
pub open spec fn is_name(component: Seq<char>) -> bool {
    component.len() > 0 && component != seq!['.'] && component != seq!['.', '.']
}

/// Tests whether a component is a name.
pub(crate) fn is_named(component: &[char]) -> (r: bool)
    ensures
        r == is_name(component@),
{
    let n: usize = component.len();
    if n == 0 {
        return false;
    }
    if n == 1 && component[0] == '.' {
        assert(component@ == seq!['.']);
        return false;
    }
    if n == 2 && component[0] == '.' && component[1] == '.' {
        assert(component@ == seq!['.', '.']);
        return false;
    }
    proof {
        if component@ == seq!['.'] {
            assert(component@[0] == '.');
        }
        if component@ == seq!['.', '.'] {
            assert(component@[0] == '.' && component@[1] == '.');
        }
    }
    true
}

/// The path up to its last component, with that component.
pub open spec fn trimmed_path(style: PathStyle, path: Seq<char>) -> Seq<char> {
    settled(reading(style, path), path, root_len(style, path))
}

/// Where the last component of a path begins that means something.
pub open spec fn name_start(style: PathStyle, path: Seq<char>) -> int {
    component_start(reading(style, path), trimmed_path(style, path), root_len(style, path))
}

/// The name at the end of a path, if its last component is one.
pub open spec fn name_in(style: PathStyle, path: Seq<char>) -> Option<Seq<char>> {
    let component = trimmed_path(style, path).skip(name_start(style, path));
    if is_name(component) {
        Some(component)
    } else {
        None
    }
}

/// The directory of a path that ends in a name, as it is written in the path.
pub open spec fn parent_in(style: PathStyle, path: Seq<char>) -> Seq<char> {
    settled(
        reading(style, path),
        trimmed_path(style, path).take(name_start(style, path)),
        root_len(style, path),
    )
}

/// Finds the name at the end of a path: where it begins and ends. `None` where the
/// last component is no name.
fn locate_name(style: PathStyle, path: &[char], root: usize) -> (r: Option<(usize, usize)>)
    requires
        root == root_len(style, path@),
        root <= path@.len(),
    ensures
        match r {
            Some((start, end)) => {
                &&& root <= start < end <= path@.len()
                &&& start == name_start(style, path@)
                &&& path@.take(end as int) == trimmed_path(style, path@)
                &&& name_in(style, path@) == Some(path@.subrange(start as int, end as int))
            },
            None => name_in(style, path@) is None,
        },
{
    assert(path@.take(path@.len() as int) == path@);
    let reading: Reading = reading_of(style, path);
    let end: usize = settle(reading, path, root, path.len());
    let start: usize = start_of_component(reading, path, root, end);
    assert(path@.take(end as int).skip(start as int) == path@.subrange(start as int, end as int));
    if is_named(vstd::slice::slice_subrange(path, start, end)) {
        Some((start, end))
    } else {
        None
    }
}

/// Finds the name at the end of a path.
pub fn final_name(style: PathStyle, path: &str) -> (name: Option<String>)
    ensures
        match name {
            Some(n) => name_in(style, path@) == Some(n@),
            None => name_in(style, path@) is None,
        },
{
    let chars: Vec<char> = to_chars(path);
    let root: usize = root_of(style, &chars);
    match locate_name(style, &chars, root) {
        Some((start, end)) => Some(from_chars(vstd::slice::slice_subrange(&chars, start, end))),
        None => None,
    }
}

/// The path of `name` in the directory `dir`. A name that begins like a drive stands
/// for itself.
pub open spec fn joined_in(style: PathStyle, dir: Seq<char>, name: Seq<char>) -> Seq<char> {
    if drive_len(style, name) > 0 || dir.len() == 0 {
        name
    } else if style.separates(dir.last()) || drive_len(style, dir) == dir.len() {
        dir + name
    } else {
        dir.push(style.separator()) + name
    }
}

/// The directory of a path that ends in a name. Where the path is taken literally,
/// it is written with one backslash before each component.
pub open spec fn directory_in(style: PathStyle, path: Seq<char>) -> Seq<char> {
    let parent = parent_in(style, path);
    if is_literal(style, path) {
        let prefix = prefix_len(style, path);
        let route = parent.skip(root_len(style, path));
        literal::followed(Reading::Literal, path.take(prefix), prefix, route)
    } else {
        parent
    }
}

/// The position of the last full stop in `s`, or -1.
pub open spec fn last_dot(s: Seq<char>) -> int
    decreases s.len(),
{
    if s.len() == 0 {
        -1
    } else if s.last() == '.' {
        s.len() - 1
    } else {
        last_dot(s.drop_last())
    }
}

/// The name of the backup number `index` of the file called `name`: the number
/// stands before the extension. A full stop at the beginning starts no extension.
pub open spec fn backup_name(name: Seq<char>, index: nat) -> Seq<char> {
    let dot = last_dot(name);
    if dot > 0 {
        name.take(dot) + seq!['.'] + text::decimal(index) + name.skip(dot)
    } else {
        name + seq!['.'] + text::decimal(index)
    }
}

/// Derives the file name of a numbered backup.
pub fn backup_file_name(name: &str, index: u32) -> (s: String)
    ensures
        s@ == backup_name(name@, index as nat),
{
    let chars: Vec<char> = to_chars(name);
    let mut end: usize = chars.len();
    assert(chars@.take(end as int) == chars@);
    while end > 0 && chars[end - 1] != '.'
        invariant
            end <= chars@.len(),
            last_dot(chars@) == last_dot(chars@.take(end as int)),
        decreases end,
    {
        assert(chars@.take(end as int).drop_last() == chars@.take(end - 1));
        end = end - 1;
    }
    assert(last_dot(chars@) == end - 1);
    // `end` is the position after the last full stop, or zero.
    let cut: usize = if end > 1 {
        end - 1
    } else {
        chars.len()
    };
    let mut s: String = from_chars(vstd::slice::slice_subrange(&chars, 0, cut));
    s.push('.');
    push_decimal(&mut s, index as u64);
    s.append(from_chars(vstd::slice::slice_subrange(&chars, cut, chars.len())).as_str());
    assert(s@ == backup_name(name@, index as nat));
    s
}

/// The position of the last full stop is one, and within the text.
pub(crate) proof fn lemma_last_dot(s: Seq<char>)
    ensures
        -1 <= last_dot(s) < s.len(),
    decreases s.len(),
{
    if s.len() > 0 && s.last() != '.' {
        lemma_last_dot(s.drop_last());
    }
}

/// Different backup numbers give different file names, and none is the name of
/// the file itself.
pub proof fn law_backup_names_differ(name: Seq<char>, i: nat, j: nat)
    ensures
        backup_name(name, i) == backup_name(name, j) ==> i == j,
        backup_name(name, i) != name,
{
    lemma_last_dot(name);
    text::lemma_decimal(i);
    text::lemma_decimal(j);
    let dot = last_dot(name);
    let cut = if dot > 0 {
        dot
    } else {
        name.len() as int
    };
    let a = backup_name(name, i);
    let b = backup_name(name, j);
    assert(a == name.take(cut) + seq!['.'] + text::decimal(i) + name.skip(cut));
    assert(b == name.take(cut) + seq!['.'] + text::decimal(j) + name.skip(cut));
    assert(a.len() == name.len() + 1 + text::decimal(i).len());
    if a == b {
        assert(a.subrange(cut + 1, cut + 1 + text::decimal(i).len()) == text::decimal(i));
        assert(b.subrange(cut + 1, cut + 1 + text::decimal(j).len()) == text::decimal(j));
        text::law_decimal_is_injective(i, j);
    }
}

/// The path of the backup number `index` of the file at `base`: the backup's name in
/// the directory of the file. A path without a name at its end is its own backup.
pub open spec fn backup_in(style: PathStyle, base: Seq<char>, index: nat) -> Seq<char> {
    match name_in(style, base) {
        None => base,
        Some(name) => if is_literal(style, base) {
            literal::joined(
                directory_in(style, base),
                prefix_len(style, base),
                backup_name(name, index),
            )
        } else {
            joined_in(style, directory_in(style, base), backup_name(name, index))
        },
    }
}

/// Whether `name` is a name on every system: without separators and colons.
pub open spec fn is_simple_name(name: Seq<char>) -> bool {
    &&& is_name(name)
    &&& forall|i: int| 0 <= i < name.len() ==> !is_separator(#[trigger] name[i]) && name[i] != ':'
}

/// Whether `whole` ends with `part`.
pub open spec fn ends_with(whole: Seq<char>, part: Seq<char>) -> bool {
    part.len() <= whole.len() && whole.skip(whole.len() - part.len()) == part
}

/// Puts a name into a directory, the first `dir` characters of a path.
fn join_name(style: PathStyle, path: &[char], dir: usize, name: &str) -> (r: String)
    requires
        dir <= path@.len(),
    ensures
        r@ == joined_in(style, path@.take(dir as int), name@),
{
    let name_chars: Vec<char> = to_chars(name);
    if dir == 0 || drive_of(style, &name_chars) > 0 {
        return name.to_owned();
    }
    let directory: &[char] = vstd::slice::slice_subrange(path, 0, dir);
    assert(directory@ == path@.take(dir as int));
    let mut r: String = from_chars(directory);
    if !style.is_separating(directory[dir - 1]) && drive_of(style, directory) != dir {
        r.push(match style {
            PathStyle::Slash => '/',
            PathStyle::Windows => '\\',
        });
    }
    r.append(name);
    r
}

/// Derives the path of a numbered backup as a system of the given style does.
pub fn backup_path_in(style: PathStyle, base_path: &str, index: u32) -> (path: String)
    ensures
        path@ == backup_in(style, base_path@, index as nat),
{
    let chars: Vec<char> = to_chars(base_path);
    let root: usize = root_of(style, &chars);
    match locate_name(style, &chars, root) {
        Some((start, end)) => {
            let name: String = from_chars(vstd::slice::slice_subrange(&chars, start, end));
            let reading: Reading = reading_of(style, &chars);
            let dir: usize = settle(reading, &chars, root, start);
            assert(trimmed_path(style, base_path@).take(start as int) == chars@.take(
                start as int,
            ));
            let backup: String = backup_file_name(name.as_str(), index);
            if reading.is_literal() {
                let prefix: usize = prefix_of(style, &chars);
                literal::join_literally(&chars, prefix, root, dir, backup.as_str())
            } else {
                join_name(style, &chars, dir, backup.as_str())
            }
        },
        None => base_path.to_owned(),
    }
}

/// Derives the numbered backup file path for rolling file rotation.
/// E.g. `procmon_metrics.csv` with index `1` -> `procmon_metrics.1.csv`
/// E.g. `C:\logs\metrics.csv` with index `2` -> `C:\logs\metrics.2.csv`
/// E.g. `metrics` (no extension) with index `1` -> `metrics.1`
///
/// The path is written in the style of the system that the program runs on.
pub fn backup_path(base_path: &str, index: u32) -> (path: String)
    ensures
        exists|style: PathStyle| #[trigger]
            is_system_style(style) && path@ == backup_in(style, base_path@, index as nat),
{
    backup_path_in(system_style(), base_path, index)
}

/// What is left of a settled path, and that nothing more falls away.
pub(crate) proof fn lemma_settled(reading: Reading, path: Seq<char>, root: int)
    requires
        0 <= root <= path.len(),
    ensures
        root <= settled(reading, path, root).len() <= path.len(),
        settled(reading, path, root) == path.take(settled(reading, path, root).len() as int),
        settled(reading, settled(reading, path, root), root) == settled(reading, path, root),
        settled(reading, path, root).len() > root ==> {
            let s = settled(reading, path, root);
            &&& !reading.separates(s.last())
            &&& reading !is Literal && s.len() >= 2 && s.last() == '.' ==> !reading.separates(
                s[s.len() - 2],
            )
        },
    decreases path.len(),
{
    reveal(settled);
    let shorter = path.drop_last();
    if path.len() > root && (reading.separates(path.last()) || (path.len() >= 2 && reading !is Literal
        && path.last() == '.' && reading.separates(path[path.len() - 2]))) {
        lemma_settled(reading, shorter, root);
        let n = settled(reading, path, root).len() as int;
        assert(shorter.take(n) == path.take(n));
    } else {
        assert(path.take(path.len() as int) == path);
    }
}

/// What stands in and before the last component.
pub(crate) proof fn lemma_component_start(reading: Reading, path: Seq<char>, root: int)
    requires
        0 <= root <= path.len(),
    ensures
        root <= component_start(reading, path, root) <= path.len(),
        component_start(reading, path, root) > root ==> reading.separates(
            path[component_start(reading, path, root) - 1],
        ),
        forall|i: int|
            component_start(reading, path, root) <= i < path.len() ==> !reading.separates(
                #[trigger] path[i],
            ),
    decreases path.len(),
{
    reveal(component_start);
    if path.len() > root && !reading.separates(path.last()) {
        let shorter = path.drop_last();
        lemma_component_start(reading, shorter, root);
        assert forall|i: int|
            component_start(reading, path, root) <= i < path.len() implies !reading.separates(
            #[trigger] path[i],
        ) by {
            if i < shorter.len() {
                assert(shorter[i] == path[i]);
            }
        }
    }
}

/// Where the last component begins is fixed by what stands in and before it.
pub(crate) proof fn lemma_component_start_at(reading: Reading, path: Seq<char>, root: int, k: int)
    requires
        0 <= root <= k <= path.len(),
        k > root ==> reading.separates(path[k - 1]),
        forall|i: int| k <= i < path.len() ==> !reading.separates(#[trigger] path[i]),
    ensures
        component_start(reading, path, root) == k,
{
    lemma_component_start(reading, path, root);
    let c = component_start(reading, path, root);
    if c < k {
        assert(!reading.separates(path[k - 1]));
    }
    if c > k {
        assert(reading.separates(path[c - 1]));
    }
}

/// What a path begins with lies within it. A separator follows, unless it is a drive
/// or all of the path.
pub(crate) proof fn lemma_prefix(style: PathStyle, path: Seq<char>)
    ensures
        0 <= prefix_len(style, path) <= path.len(),
        is_literal(style, path) ==> prefix_len(style, path) >= 4,
        0 < prefix_len(style, path) < path.len() ==> {
            ||| style.separates(path[prefix_len(style, path)])
            ||| prefix_len(style, path) == 2 && drive_len(style, path) == 2
        },
{
    if is_literal(style, path) {
        if is_literal_share(path) {
            text::lemma_find_from(path, CharClass::One('\\'), 8);
            if literal_server_end(path) < path.len() {
                let from = literal_server_end(path) + 1;
                text::lemma_find_from(path, CharClass::One('\\'), from);
            }
        } else {
            text::lemma_find_from(path, CharClass::One('\\'), 4);
        }
    } else if style is Windows && begins_twice(path) {
        text::lemma_find_from(path, CharClass::PathSeparator, 2);
        if server_end(path) < path.len() {
            text::lemma_find_from(path, CharClass::PathSeparator, server_end(path) + 1);
        }
        if is_device(path) {
            text::lemma_find_from(path, CharClass::PathSeparator, 4);
        }
    }
}

/// The root of a path lies within it. It ends with a separator or a colon, or is all
/// of the path.
pub(crate) proof fn lemma_root(style: PathStyle, path: Seq<char>)
    ensures
        0 <= root_len(style, path) <= path.len(),
        0 < root_len(style, path) < path.len() ==> {
            ||| style.separates(path[root_len(style, path) - 1])
            ||| root_len(style, path) == 2 && drive_len(style, path) == 2
        },
        is_literal(style, path) && root_len(style, path) < path.len() ==> root_len(style, path)
            == prefix_len(style, path) + 1,
{
    lemma_prefix(style, path);
}

/// What is known of the name at the end of a path.
pub(crate) proof fn lemma_name(style: PathStyle, path: Seq<char>)
    requires
        name_in(style, path) is Some,
    ensures
        ({
            let reading = reading(style, path);
            let t = trimmed_path(style, path);
            let k = name_start(style, path);
            let root = root_len(style, path);
            let name = name_in(style, path)->0;
            let dir = parent_in(style, path);
            &&& t.len() <= path.len()
            &&& t == path.take(t.len() as int)
            &&& 0 <= root <= k < t.len()
            &&& name == path.subrange(k, t.len() as int)
            &&& is_name(name)
            &&& k > 0 ==> style.separates(path[k - 1]) || path[k - 1] == ':'
            &&& k > root ==> reading.separates(path[k - 1])
            &&& forall|i: int| 0 <= i < name.len() ==> !reading.separates(#[trigger] name[i])
            &&& root <= dir.len() <= k
            &&& dir == path.take(dir.len() as int)
            &&& settled(reading, dir, root) == dir
            &&& dir.len() > root ==> !reading.separates(dir.last())
            &&& t.len() < path.len() ==> t.len() > root
        }),
{
    let reading = reading(style, path);
    let t = trimmed_path(style, path);
    let k = name_start(style, path);
    let root = root_len(style, path);
    lemma_root(style, path);
    lemma_settled(reading, path, root);
    lemma_component_start(reading, t, root);
    let before = t.take(k);
    lemma_settled(reading, before, root);
    let dir = parent_in(style, path);
    let name = name_in(style, path)->0;
    assert(name == path.subrange(k, t.len() as int));
    assert(before.take(dir.len() as int) == path.take(dir.len() as int));
    assert forall|i: int| 0 <= i < name.len() implies !reading.separates(#[trigger] name[i]) by {
        assert(name[i] == t[k + i]);
    }
    if k > 0 {
        assert(t[k - 1] == path[k - 1]);
    }
}

/// A backup's name begins like the name, and holds no separators.
pub(crate) proof fn lemma_backup_name(reading: Reading, name: Seq<char>, index: nat)
    requires
        is_name(name),
        forall|i: int| 0 <= i < name.len() ==> !reading.separates(#[trigger] name[i]),
    ensures
        ({
            let b = backup_name(name, index);
            &&& b.len() >= 3
            &&& b[0] == name[0]
            &&& is_drive_at(b, 0) == is_drive_at(name, 0)
            &&& is_name(b)
            &&& forall|i: int| 0 <= i < b.len() ==> !reading.separates(#[trigger] b[i])
        }),
{
    lemma_last_dot(name);
    text::lemma_decimal(index);
    let b = backup_name(name, index);
    let dot = last_dot(name);
    let cut = if dot > 0 {
        dot
    } else {
        name.len() as int
    };
    let digits = text::decimal(index);
    assert(b == name.take(cut) + seq!['.'] + digits + name.skip(cut));
    assert forall|i: int| 0 <= i < b.len() implies !reading.separates(#[trigger] b[i]) by {
        if i < cut {
            assert(b[i] == name[i]);
        } else if i == cut {
            assert(b[i] == '.');
        } else if i < cut + 1 + digits.len() {
            assert(b[i] == digits[i - cut - 1]);
            assert(text::is_digit(digits[i - cut - 1]));
        } else {
            assert(b[i] == name[i - 1 - digits.len()]);
        }
    }
    assert(b[0] == name[0]);
    if cut == 1 {
        assert(b[1] == '.');
        if dot > 0 {
            lemma_last_dot_is_one(name);
            assert(name[1] == '.');
        }
    } else {
        assert(b[1] == name[1]);
    }
    assert(seq!['.'].len() == 1 && seq!['.', '.'].len() == 2);
}

/// The position of the last full stop holds one, and nothing after it does.
pub(crate) proof fn lemma_last_dot_is_one(s: Seq<char>)
    ensures
        last_dot(s) >= 0 ==> s[last_dot(s)] == '.',
        forall|i: int| last_dot(s) < i < s.len() ==> #[trigger] s[i] != '.',
    decreases s.len(),
{
    if s.len() > 0 && s.last() != '.' {
        let shorter = s.drop_last();
        lemma_last_dot_is_one(shorter);
        lemma_last_dot(shorter);
        assert forall|i: int| last_dot(s) < i < s.len() implies #[trigger] s[i] != '.' by {
            if i < shorter.len() {
                assert(shorter[i] == s[i]);
            }
        }
    }
}

/// The last full stop is where one stands that none follows.
pub(crate) proof fn lemma_last_dot_at(s: Seq<char>, k: int)
    requires
        0 <= k < s.len(),
        s[k] == '.',
        forall|i: int| k < i < s.len() ==> #[trigger] s[i] != '.',
    ensures
        last_dot(s) == k,
{
    lemma_last_dot(s);
    lemma_last_dot_is_one(s);
    if last_dot(s) < k {
        assert(s[k] != '.');
    }
}

/// A search ends at the same place in two texts that agree so far.
pub(crate) proof fn lemma_find_agree(a: Seq<char>, b: Seq<char>, class: CharClass, from: int)
    requires
        0 <= from <= text::find_from(a, class, from) < a.len(),
        text::find_from(a, class, from) < b.len(),
        forall|i: int| from <= i <= text::find_from(a, class, from) ==> #[trigger] a[i] == b[i],
    ensures
        text::find_from(b, class, from) == text::find_from(a, class, from),
    decreases text::find_from(a, class, from) - from,
{
    if !class.has(a[from]) {
        text::lemma_find_from(a, class, from + 1);
        assert(a[from] == b[from]);
        lemma_find_agree(a, b, class, from + 1);
    }
}

/// Whether a path is the name of a server and no more, as `\\server`.
pub open spec fn is_bare_server(path: Seq<char>) -> bool {
    begins_twice(path) && 2 < path.len() == server_end(path)
}

/// A path begins on Windows with the same drive, share or device when something else
/// comes after its directory.
#[verifier::spinoff_prover]
proof fn lemma_same_prefix(base: Seq<char>, dir: Seq<char>, t: Seq<char>, b: Seq<char>)
    requires
        !is_literal(PathStyle::Windows, base),
        root_len(PathStyle::Windows, base) <= dir.len() < base.len(),
        dir == base.take(dir.len() as int),
        dir.len() > root_len(PathStyle::Windows, base) ==> !is_separator(dir.last()),
        !is_bare_server(dir),
        b.len() > 0,
        drive_len(PathStyle::Windows, b) == 0,
        !is_separator(b[0]),
        t == dir + b || t == dir.push('\\') + b,
        t == dir + b ==> dir.len() == root_len(PathStyle::Windows, base),
        dir.len() > root_len(PathStyle::Windows, base) ==> t == dir.push('\\') + b,
        dir.len() == root_len(PathStyle::Windows, base) ==> t == dir + b,
    ensures
        !is_literal(PathStyle::Windows, t),
        root_len(PathStyle::Windows, t) == root_len(PathStyle::Windows, base),
{
    let w = PathStyle::Windows;
    let class = CharClass::PathSeparator;
    let root = root_len(w, base);
    lemma_root(w, base);
    lemma_prefix(w, base);
    assert forall|i: int| 0 <= i < dir.len() implies #[trigger] t[i] == base[i] by {
        assert(dir[i] == base[i]);
    }
    assert(t[dir.len() as int] == b[0] || t[dir.len() as int] == '\\');
    if begins_twice(base) {
        text::lemma_find_from(base, class, 2);
        if is_device(base) {
            text::lemma_find_from(base, class, 4);
            assert(t[0] == base[0] && t[1] == base[1] && t[2] == base[2] && t[3] == base[3]);
            lemma_find_agree(base, t, class, 4);
        } else if names_share(base) {
            text::lemma_find_from(base, class, server_end(base) + 1);
            assert(t[0] == base[0] && t[1] == base[1] && t[2] == base[2] && t[3] == base[3]);
            lemma_find_agree(base, t, class, 2);
            lemma_find_agree(base, t, class, server_end(base) + 1);
        } else if dir.len() == 1 {
            assert(t[0] == base[0] && t[1] == b[0]);
        } else {
            // A server without a share, and then directories.
            assert(dir.last() == base[dir.len() - 1]);
            assert(dir.len() >= 3);
            assert(dir[0] == base[0] && dir[1] == base[1] && dir[2] == base[2]);
            text::lemma_find_from(dir, class, 2);
            let s = server_end(dir);
            assert(s < dir.len());
            assert forall|i: int| 2 <= i <= s implies #[trigger] dir[i] == base[i] && dir[i]
                == t[i] by {}
            lemma_find_agree(dir, base, class, 2);
            lemma_find_agree(dir, t, class, 2);
            assert(t[0] == base[0] && t[1] == base[1] && t[2] == base[2] && t[3] == base[3]);
            if s > 2 {
                assert(dir[s] == base[s]);
                assert(s + 1 < dir.len());
                text::lemma_find_from(base, class, s + 1);
                assert(share_end(base) == s + 1);
                assert(t[s + 1] == base[s + 1]);
                assert(share_end(t) == s + 1);
            }
        }
    } else {
        // The first characters decide whether there is a drive, and what follows it.
        if root == 0 {
            if dir.len() == 0 {
                assert(t == b);
            } else {
                assert(t[0] == base[0]);
                if dir.len() == 1 {
                    assert(t[1] == '\\');
                } else {
                    assert(t[1] == base[1]);
                }
            }
        } else if root == 1 {
            assert(t[0] == base[0]);
            if dir.len() == 1 {
                assert(t[1] == b[0]);
            } else {
                assert(t[1] == base[1]);
            }
        } else {
            assert(t[0] == base[0] && t[1] == base[1]);
            if dir.len() == 2 {
                assert(t[2] == b[0]);
            } else {
                assert(t[2] == base[2]);
            }
        }
    }
}

/// The backup of a path that is not taken literally and has a name that is no drive:
/// the backup's name behind the directory of the file, with at most a separator
/// between them.
#[verifier::spinoff_prover]
proof fn lemma_backup_shape(style: PathStyle, base: Seq<char>, index: nat)
    requires
        !is_literal(style, base),
        name_in(style, base) is Some,
        drive_len(style, name_in(style, base)->0) == 0,
    ensures
        ({
            let t = backup_in(style, base, index);
            let b = backup_name(name_in(style, base)->0, index);
            let dir = parent_in(style, base);
            let root = root_len(style, base);
            &&& t == dir + b || t == dir.push(style.separator()) + b
            &&& dir.len() == root ==> t == dir + b
            &&& dir.len() > root ==> t == dir.push(style.separator()) + b
            &&& t == dir + b ==> dir.len() == root
        }),
{
    let name = name_in(style, base)->0;
    let b = backup_name(name, index);
    let dir = parent_in(style, base);
    let root = root_len(style, base);
    let t = backup_in(style, base, index);
    lemma_name(style, base);
    lemma_root(style, base);
    lemma_backup_name(reading(style, base), name, index);
    let sep = style.separator();
    if dir.len() == 0 {
        assert(t == dir + b);
    }
    if dir.len() > 0 && dir.len() == root {
        assert(dir.last() == base[root - 1]);
        if drive_len(style, base) == 2 && root == 2 {
            assert(dir[0] == base[0] && dir[1] == base[1]);
        }
        assert(style.separates(dir.last()) || drive_len(style, dir) == dir.len());
        assert(t == dir + b);
    }
    if dir.len() > root {
        assert(!style.separates(dir.last()));
        if dir.len() == 2 {
            assert(dir[0] == base[0] && dir[1] == base[1]);
            lemma_prefix(style, base);
        }
        assert(drive_len(style, dir) != dir.len());
        assert(t == dir.push(sep) + b);
    }
    assert((dir + b).len() != (dir.push(sep) + b).len());
}

/// A name that ends a path and holds no separators is the last component.
pub(crate) proof fn lemma_last_component(reading: Reading, t: Seq<char>, root: int, b: Seq<char>)
    requires
        is_name(b),
        forall|i: int| 0 <= i < b.len() ==> !reading.separates(#[trigger] b[i]),
        ends_with(t, b),
        0 <= root <= t.len() - b.len(),
        t.len() - b.len() > root ==> reading.separates(t[t.len() - b.len() - 1]),
    ensures
        settled(reading, t, root) == t,
        component_start(reading, t, root) == t.len() - b.len(),
{
    let k = t.len() - b.len();
    assert(t.skip(k) == b);
    assert forall|i: int| k <= i < t.len() implies !reading.separates(#[trigger] t[i]) by {
        assert(t[i] == b[i - k]);
    }
    if b.len() == 1 {
        assert(t.last() == b[0]);
        assert(b[0] != '.') by {
            if b[0] == '.' {
                assert(b == seq!['.']);
            }
        }
    }
    lemma_settled_stays(reading, t, root);
    lemma_component_start_at(reading, t, root, k);
}

/// A path that is made of a directory and a name is read as that. `sep` is what stands
/// between them, unless the directory is the root.
pub(crate) proof fn lemma_read_back(
    style: PathStyle,
    t: Seq<char>,
    dir: Seq<char>,
    sep: char,
    b: Seq<char>,
)
    requires
        is_name(b),
        forall|i: int| 0 <= i < b.len() ==> !reading(style, t).separates(#[trigger] b[i]),
        0 <= root_len(style, t) <= dir.len(),
        reading(style, t).separates(sep),
        ({
            ||| t == dir.push(sep) + b && settled(reading(style, t), dir, root_len(style, t)) == dir
            ||| t == dir + b && dir.len() == root_len(style, t)
        }),
    ensures
        name_in(style, t) == Some(b),
        parent_in(style, t) == dir,
{
    let r = reading(style, t);
    let root = root_len(style, t);
    let k = t.len() - b.len();
    assert(t.skip(k) == b);
    let before = t.take(k);
    if t == dir + b && dir.len() == root {
        assert(before == dir);
        lemma_settled_stays(r, before, root);
    } else {
        assert(before == dir.push(sep));
        assert(before.last() == sep && t[k - 1] == before.last());
        assert(before.drop_last() == dir);
        lemma_settled_drops(r, before, root);
    }
    lemma_last_component(r, t, root, b);
}

/// The case of `law_backup_stands_beside_its_file` in which the path is not taken
/// literally.
#[verifier::spinoff_prover]
proof fn lemma_backup_beside(style: PathStyle, base: Seq<char>, index: nat)
    requires
        !is_literal(style, base),
        name_in(style, base) is Some,
        drive_len(style, name_in(style, base)->0) == 0,
        !(style is Windows && is_bare_server(parent_in(style, base))),
    ensures
        name_in(style, backup_in(style, base, index)) == Some(
            backup_name(name_in(style, base)->0, index),
        ),
        !is_literal(style, backup_in(style, base, index)),
        parent_in(style, backup_in(style, base, index)) == parent_in(style, base),
{
    let name = name_in(style, base)->0;
    let b = backup_name(name, index);
    let dir = parent_in(style, base);
    let t = backup_in(style, base, index);
    lemma_name(style, base);
    lemma_backup_name(reading(style, base), name, index);
    lemma_backup_shape(style, base, index);
    assert(!reading(style, base).separates(b[0]));
    if style is Windows {
        lemma_same_prefix(base, dir, t, b);
    } else {
        lemma_same_slash_root(base, dir, t, b);
    }
    lemma_read_back(style, t, dir, style.separator(), b);
}

/// Whether a path begins with a slash is seen from its directory.
proof fn lemma_same_slash_root(base: Seq<char>, dir: Seq<char>, t: Seq<char>, b: Seq<char>)
    requires
        dir.len() < base.len(),
        dir == base.take(dir.len() as int),
        root_len(PathStyle::Slash, base) <= dir.len(),
        b.len() > 0,
        b[0] != '/',
        t == dir + b || t == dir.push('/') + b && dir.len() > 0,
    ensures
        root_len(PathStyle::Slash, t) == root_len(PathStyle::Slash, base),
{
    if dir.len() > 0 {
        assert(t[0] == dir[0] && dir[0] == base[0]);
    } else {
        assert(t == b);
    }
}

/// A backup has the extension of its file.
pub proof fn law_backup_keeps_extension(name: Seq<char>, index: nat)
    requires
        last_dot(name) > 0,
    ensures
        last_dot(backup_name(name, index)) > 0,
        backup_name(name, index).skip(last_dot(backup_name(name, index))) == name.skip(
            last_dot(name),
        ),
{
    lemma_last_dot(name);
    lemma_last_dot_is_one(name);
    let dot = last_dot(name);
    let digits = text::decimal(index);
    let b = backup_name(name, index);
    let at = dot + 1 + digits.len();
    assert(b == name.take(dot) + seq!['.'] + digits + name.skip(dot));
    assert forall|i: int| at <= i < b.len() implies #[trigger] b[i] == name[i - at + dot] by {}
    assert forall|i: int| at < i < b.len() implies #[trigger] b[i] != '.' by {
        assert(name[i - at + dot] != '.');
    }
    lemma_last_dot_at(b, at);
    assert(b.skip(at) == name.skip(dot));
}

/// Whether the character at `i` can fall away at the end of a path: it separates, or
/// is a full stop behind one that does.
pub open spec fn falls_away(reading: Reading, path: Seq<char>, i: int) -> bool {
    ||| reading.separates(path[i])
    ||| reading !is Literal && path[i] == '.' && i >= 1 && reading.separates(path[i - 1])
}

/// A path whose last character cannot fall away, or belongs to the root, stays as it
/// is.
pub(crate) proof fn lemma_settled_stays(reading: Reading, path: Seq<char>, root: int)
    requires
        path.len() <= root || path.len() == 0 || !falls_away(reading, path, path.len() - 1),
    ensures
        settled(reading, path, root) == path,
{
    reveal(settled);
}

/// A separator at the end falls away.
pub(crate) proof fn lemma_settled_drops(reading: Reading, path: Seq<char>, root: int)
    requires
        0 <= root < path.len(),
        reading.separates(path.last()),
    ensures
        settled(reading, path, root) == settled(reading, path.drop_last(), root),
{
    reveal(settled);
}

/// What falls away at the end of a path.
pub(crate) proof fn lemma_settled_away(reading: Reading, path: Seq<char>, root: int)
    requires
        0 <= root <= path.len(),
    ensures
        forall|i: int|
            settled(reading, path, root).len() <= i < path.len() ==> #[trigger] falls_away(
                reading,
                path,
                i,
            ),
    decreases path.len(),
{
    reveal(settled);
    let shorter = path.drop_last();
    if path.len() > root && path.len() > 0 && falls_away(reading, path, path.len() - 1) {
        lemma_settled_away(reading, shorter, root);
        assert forall|i: int|
            settled(reading, path, root).len() <= i < path.len() implies #[trigger] falls_away(
            reading,
            path,
            i,
        ) by {
            if i < shorter.len() {
                assert(falls_away(reading, shorter, i));
            }
        }
    }
}

/// What comes before the last full stop of a text, and what after it, are fixed.
pub(crate) proof fn lemma_split_at_last_dot(p: Seq<char>, a: Seq<char>, q: Seq<char>, b: Seq<char>)
    requires
        p.push('.') + a == q.push('.') + b,
        forall|i: int| 0 <= i < a.len() ==> #[trigger] a[i] != '.',
        forall|i: int| 0 <= i < b.len() ==> #[trigger] b[i] != '.',
    ensures
        p == q,
        a == b,
{
    let t = p.push('.') + a;
    assert forall|i: int| p.len() < i < t.len() implies #[trigger] t[i] != '.' by {
        assert(t[i] == a[i - p.len() - 1]);
    }
    lemma_last_dot_at(t, p.len() as int);
    assert forall|i: int| q.len() < i < t.len() implies #[trigger] t[i] != '.' by {
        assert(t[i] == b[i - q.len() - 1]);
    }
    assert(t[q.len() as int] == (q.push('.') + b)[q.len() as int]);
    lemma_last_dot_at(t, q.len() as int);
    assert(p == t.take(p.len() as int) && q == (q.push('.') + b).take(q.len() as int));
    assert(a == t.skip(p.len() as int + 1) && b == (q.push('.') + b).skip(q.len() as int + 1));
}

/// Decimal digits are no full stops.
pub(crate) proof fn lemma_digits_without_dots(n: nat)
    ensures
        text::decimal(n).len() > 0,
        forall|i: int| 0 <= i < text::decimal(n).len() ==> text::is_digit(
            #[trigger] text::decimal(n)[i],
        ) && text::decimal(n)[i] != '.',
{
    text::lemma_decimal(n);
    assert forall|i: int| 0 <= i < text::decimal(n).len() implies text::is_digit(
        #[trigger] text::decimal(n)[i],
    ) && text::decimal(n)[i] != '.' by {}
}

/// Whether `rest` is an extension with its full stop, or nothing.
pub open spec fn is_extension(rest: Seq<char>) -> bool {
    &&& rest.len() > 0 ==> rest[0] == '.'
    &&& forall|i: int| 1 <= i < rest.len() ==> #[trigger] rest[i] != '.'
}

/// Where the extension of a name begins, with its full stop, or where the name ends.
pub open spec fn extension_start(name: Seq<char>) -> int {
    if last_dot(name) > 0 {
        last_dot(name)
    } else {
        name.len() as int
    }
}

/// What a backup's name is made of.
pub(crate) proof fn lemma_backup_name_parts(name: Seq<char>, index: nat)
    ensures
        ({
            let cut = extension_start(name);
            let stem = name.take(cut);
            let rest = name.skip(cut);
            &&& 0 <= cut <= name.len()
            &&& name.len() > 0 ==> cut > 0
            &&& is_extension(rest)
            &&& backup_name(name, index) == stem.push('.') + text::decimal(index) + rest
        }),
{
    lemma_last_dot(name);
    lemma_last_dot_is_one(name);
    let cut = extension_start(name);
    let rest = name.skip(cut);
    assert forall|i: int| 1 <= i < rest.len() implies #[trigger] rest[i] != '.' by {
        assert(rest[i] == name[cut + i]);
    }
    assert(name.take(cut) + seq!['.'] == name.take(cut).push('.'));
    if last_dot(name) <= 0 {
        assert(name.take(cut) == name);
        assert(backup_name(name, index) == name.push('.') + text::decimal(index) + rest);
    }
}

/// Whether `t` is made of `x`, a full stop and a number, and an extension.
pub open spec fn is_numbered(t: Seq<char>, x: Seq<char>, i: nat, extension: Seq<char>) -> bool {
    t == x.push('.') + text::decimal(i) + extension && is_extension(extension)
}

/// A text in which two numbers stand so: they are one, unless one of them is the
/// extension that the other has before it.
pub(crate) proof fn lemma_two_numbers(
    t: Seq<char>,
    x: Seq<char>,
    i: nat,
    e: Seq<char>,
    y: Seq<char>,
    j: nat,
    f: Seq<char>,
)
    requires
        is_numbered(t, x, i, e),
        is_numbered(t, y, j, f),
    ensures
        (e.len() == 0) == (f.len() == 0) ==> i == j,
        e.len() > 0 && f.len() == 0 ==> x.push('.') + text::decimal(i) == y && e == seq!['.']
            + text::decimal(j),
        e.len() == 0 && f.len() > 0 ==> y.push('.') + text::decimal(j) == x && f == seq!['.']
            + text::decimal(i),
{
    let (di, dj) = (text::decimal(i), text::decimal(j));
    lemma_digits_without_dots(i);
    lemma_digits_without_dots(j);
    if e.len() == 0 && f.len() == 0 {
        lemma_number_last(t, x, i, e);
        lemma_number_last(t, y, j, f);
        lemma_split_at_last_dot(x, di, y, dj);
        text::law_decimal_is_injective(i, j);
    } else if e.len() == 0 {
        lemma_number_last(t, x, i, e);
        lemma_extension_last(t, y, j, f);
        lemma_split_at_last_dot(x, di, y.push('.') + dj, f.skip(1));
    } else if f.len() == 0 {
        lemma_extension_last(t, x, i, e);
        lemma_number_last(t, y, j, f);
        lemma_split_at_last_dot(x.push('.') + di, e.skip(1), y, dj);
    } else {
        lemma_extension_last(t, x, i, e);
        lemma_extension_last(t, y, j, f);
        lemma_split_at_last_dot(x.push('.') + di, e.skip(1), y.push('.') + dj, f.skip(1));
        lemma_split_at_last_dot(x, di, y, dj);
        text::law_decimal_is_injective(i, j);
    }
}

/// Such a text without an extension ends with the number.
proof fn lemma_number_last(t: Seq<char>, x: Seq<char>, i: nat, e: Seq<char>)
    requires
        is_numbered(t, x, i, e),
        e.len() == 0,
    ensures
        t == x.push('.') + text::decimal(i),
{
    assert(x.push('.') + text::decimal(i) + e == x.push('.') + text::decimal(i));
}

/// Such a text with an extension ends with that.
proof fn lemma_extension_last(t: Seq<char>, x: Seq<char>, i: nat, e: Seq<char>)
    requires
        is_numbered(t, x, i, e),
        e.len() > 0,
    ensures
        t == (x.push('.') + text::decimal(i)).push('.') + e.skip(1),
        e == seq!['.'] + e.skip(1),
        forall|k: int| 0 <= k < e.skip(1).len() ==> #[trigger] e.skip(1)[k] != '.',
{
    let f = e.skip(1);
    assert forall|k: int| 0 <= k < f.len() implies #[trigger] f[k] != '.' by {
        assert(f[k] == e[k + 1]);
    }
    assert(e == seq!['.'] + f);
    assert(x.push('.') + text::decimal(i) + e == (x.push('.') + text::decimal(i)).push('.') + f);
}

/// The path of a backup up to the number in it: all before the name, and the name up
/// to its extension.
pub(crate) proof fn lemma_backup_parts(style: PathStyle, base: Seq<char>, index: nat) -> (x: Seq<
    char,
>)
    requires
        !is_literal(style, base),
        name_in(style, base) is Some,
    ensures
        ({
            let name = name_in(style, base)->0;
            let cut = extension_start(name);
            &&& is_numbered(backup_in(style, base, index), x, index, name.skip(cut))
            &&& ends_with(x, name.take(cut))
        }),
{
    let t = backup_in(style, base, index);
    let name = name_in(style, base)->0;
    let cut = extension_start(name);
    let b = backup_name(name, index);
    lemma_backup_name_parts(name, index);
    let h = t.take(t.len() - b.len());
    assert(t == h + b);
    let x = h + name.take(cut);
    assert(x.skip(h.len() as int) == name.take(cut));
    assert(t == x.push('.') + text::decimal(index) + name.skip(cut));
    x
}

/// How the names at the end of a path differ between the two styles.
#[verifier::spinoff_prover]
proof fn lemma_two_styles(base: Seq<char>)
    requires
        !is_literal(PathStyle::Windows, base),
        name_in(PathStyle::Slash, base) is Some,
        name_in(PathStyle::Windows, base) is Some,
    ensures
        ({
            let n = name_in(PathStyle::Slash, base)->0;
            let m = name_in(PathStyle::Windows, base)->0;
            let gap = n.len() - m.len();
            &&& n.len() > 0 && m.len() > 0
            &&& {
                ||| gap >= 0 && m == n.skip(gap) && (gap > 0 ==> n[gap - 1] == '\\' || n[gap - 1]
                    == ':')
                ||| n.last() == '\\'
                ||| n.len() >= 2 && n.last() == '.' && n[n.len() - 2] == '\\'
            }
        }),
{
    let s = PathStyle::Slash;
    let w = PathStyle::Windows;
    let a = trimmed_path(s, base);
    let b = trimmed_path(w, base);
    let n = name_in(s, base)->0;
    let m = name_in(w, base)->0;
    let (ks, kw) = (name_start(s, base), name_start(w, base));
    lemma_name(s, base);
    lemma_name(w, base);
    lemma_root(s, base);
    lemma_root(w, base);
    lemma_settled(Reading::Slash, base, root_len(s, base));
    lemma_settled(Reading::Windows, base, root_len(w, base));
    lemma_settled_away(Reading::Slash, base, root_len(s, base));
    lemma_settled_away(Reading::Windows, base, root_len(w, base));
    assert(a.last() == base[a.len() - 1] && b.last() == base[b.len() - 1]);
    assert(n.last() == base[a.len() - 1]);
    if a.len() < b.len() {
        assert(falls_away(Reading::Slash, base, b.len() - 1));
        assert(b.len() >= 2 ==> b[b.len() - 2] == base[b.len() - 2]);
        assert(false);
    }
    if a.len() > b.len() {
        let last = base[a.len() - 1];
        assert(falls_away(Reading::Windows, base, a.len() - 1));
        assert(w.separates(last) || (last == '.' && a.len() >= 2 && w.separates(
            base[a.len() - 2],
        )));
        if last == '.' {
            assert(a[a.len() - 2] == base[a.len() - 2]);
            assert(base[a.len() - 2] == '\\');
            assert(n.len() >= 2) by {
                if n.len() == 1 {
                    assert(n == seq!['.']);
                }
            }
            assert(n[n.len() - 2] == base[a.len() - 2]);
        }
    } else {
        assert(a == b);
        if ks > kw {
            assert(base[ks - 1] == '/');
            assert(m[ks - 1 - kw] == base[ks - 1]);
        }
        let gap = n.len() - m.len();
        assert(gap == kw - ks);
        assert(m == n.skip(gap));
        if gap > 0 {
            assert(n[gap - 1] == base[kw - 1]);
        }
    }
}

/// Two numbers give two paths, even where one is written in the style of slashes
/// and the other in that of Windows.
#[verifier::spinoff_prover]
proof fn lemma_backups_of_two_styles(base: Seq<char>, i: nat, j: nat)
    requires
        !is_literal(PathStyle::Windows, base),
        name_in(PathStyle::Slash, base) is Some,
        name_in(PathStyle::Windows, base) is Some,
        backup_in(PathStyle::Slash, base, i) == backup_in(PathStyle::Windows, base, j),
    ensures
        i == j,
{
    let (s, w) = (PathStyle::Slash, PathStyle::Windows);
    let (n, m) = (name_in(s, base)->0, name_in(w, base)->0);
    let (e, f) = (n.skip(extension_start(n)), m.skip(extension_start(m)));
    let x = lemma_backup_parts(s, base, i);
    let y = lemma_backup_parts(w, base, j);
    lemma_two_numbers(backup_in(s, base, i), x, i, e, y, j, f);
    lemma_backup_name_parts(n, i);
    lemma_backup_name_parts(m, j);
    if e.len() > 0 && f.len() == 0 {
        lemma_name_of_two_styles(base, j);
        lemma_last_dot(m);
        assert(m.take(extension_start(m)) == m);
        lemma_extension_against_number(n, m, x, i, y, j);
    } else if e.len() == 0 && f.len() > 0 {
        // The names are tails of one text, and the longer has no extension.
        assert(n.take(extension_start(n)) == n);
        lemma_last_dot(n);
        lemma_name(s, base);
        lemma_ends_with_digit(x, y, j, n);
        lemma_name_ends_with_digit(base);
        lemma_tail_without_extension(n, m);
    }
}

/// A name that ends a text with a number last has a digit last.
proof fn lemma_ends_with_digit(x: Seq<char>, y: Seq<char>, j: nat, n: Seq<char>)
    requires
        x == y.push('.') + text::decimal(j),
        ends_with(x, n),
        n.len() > 0,
    ensures
        text::is_digit(n.last()),
{
    lemma_digits_without_dots(j);
    let dj = text::decimal(j);
    assert(x.skip(x.len() - n.len())[n.len() - 1] == x.last());
    assert(x.last() == dj[dj.len() - 1]);
}

/// A tail of a text without an extension has none.
proof fn lemma_tail_without_extension(n: Seq<char>, m: Seq<char>)
    requires
        m.len() <= n.len(),
        m == n.skip(n.len() - m.len()),
        last_dot(n) <= 0,
    ensures
        last_dot(m) <= 0,
{
    lemma_last_dot(m);
    lemma_last_dot_is_one(m);
    lemma_last_dot_is_one(n);
    if last_dot(m) > 0 {
        assert(n[n.len() - m.len() + last_dot(m)] == m[last_dot(m)]);
    }
}

/// Where the name has a digit last, what Windows takes for it is a tail of it.
proof fn lemma_name_ends_with_digit(base: Seq<char>)
    requires
        !is_literal(PathStyle::Windows, base),
        name_in(PathStyle::Slash, base) is Some,
        name_in(PathStyle::Windows, base) is Some,
        text::is_digit(name_in(PathStyle::Slash, base)->0.last()),
    ensures
        ({
            let n = name_in(PathStyle::Slash, base)->0;
            let m = name_in(PathStyle::Windows, base)->0;
            let gap = n.len() - m.len();
            &&& n.len() > 0
            &&& 0 < m.len() <= n.len()
            &&& m == n.skip(gap)
            &&& gap > 0 ==> n[gap - 1] == '\\' || n[gap - 1] == ':'
        }),
{
    lemma_two_styles(base);
}

/// The same where the name, read with slashes, has a number for an extension.
proof fn lemma_name_of_two_styles(base: Seq<char>, j: nat)
    requires
        !is_literal(PathStyle::Windows, base),
        name_in(PathStyle::Slash, base) is Some,
        name_in(PathStyle::Windows, base) is Some,
        ({
            let n = name_in(PathStyle::Slash, base)->0;
            n.skip(extension_start(n)) == seq!['.'] + text::decimal(j)
        }),
    ensures
        ({
            let n = name_in(PathStyle::Slash, base)->0;
            let m = name_in(PathStyle::Windows, base)->0;
            let gap = n.len() - m.len();
            &&& 0 < m.len() <= n.len()
            &&& m == n.skip(gap)
            &&& gap > 0 ==> n[gap - 1] == '\\' || n[gap - 1] == ':'
            &&& last_dot(n) > 0
            &&& n.skip(last_dot(n) + 1) == text::decimal(j)
        }),
{
    let n = name_in(PathStyle::Slash, base)->0;
    let dj = text::decimal(j);
    let rest = n.skip(extension_start(n));
    lemma_digits_without_dots(j);
    lemma_last_dot(n);
    assert(rest.len() > 0);
    assert(rest.last() == (seq!['.'] + dj).last());
    assert(n.last() == rest.last());
    assert((seq!['.'] + dj).last() == dj[dj.len() - 1]);
    assert(n.skip(last_dot(n) + 1) == rest.skip(1));
    assert((seq!['.'] + dj).skip(1) == dj);
    lemma_name_ends_with_digit(base);
}

/// The case of `lemma_backups_of_two_styles` in which the longer name `n` has an
/// extension and its tail `m` has none.
#[verifier::spinoff_prover]
proof fn lemma_extension_against_number(
    n: Seq<char>,
    m: Seq<char>,
    x: Seq<char>,
    i: nat,
    y: Seq<char>,
    j: nat,
)
    requires
        0 < m.len() <= n.len(),
        m == n.skip(n.len() - m.len()),
        n.len() > m.len() ==> n[n.len() - m.len() - 1] == '\\' || n[n.len() - m.len() - 1] == ':',
        last_dot(n) > 0,
        last_dot(m) <= 0,
        n.skip(last_dot(n) + 1) == text::decimal(j),
        x.push('.') + text::decimal(i) == y,
        ends_with(y, m),
    ensures
        i == j,
{
    let dn = last_dot(n);
    let (di, dj) = (text::decimal(i), text::decimal(j));
    let gap = n.len() - m.len();
    lemma_last_dot(n);
    lemma_last_dot_is_one(n);
    lemma_last_dot_is_one(m);
    lemma_digits_without_dots(i);
    lemma_digits_without_dots(j);
    if dn < gap {
        if gap - 1 > dn {
            assert(n.skip(dn + 1)[gap - 1 - (dn + 1)] == n[gap - 1]);
            assert(text::is_digit(dj[gap - 1 - (dn + 1)]));
        }
        assert(false);
    }
    assert(m[dn - gap] == '.');
    assert(dn == gap);
    assert(m.skip(1) == n.skip(dn + 1));
    assert(m == seq!['.'] + dj);
    let p = y.take(y.len() - m.len());
    assert(y == p + m);
    assert(y == p.push('.') + dj);
    lemma_split_at_last_dot(x, di, p, dj);
    text::law_decimal_is_injective(i, j);
}

/// Two names in one directory have two paths.
proof fn lemma_joined_differ(style: PathStyle, dir: Seq<char>, b: Seq<char>, c: Seq<char>)
    requires
        drive_len(style, b) == drive_len(style, c),
        joined_in(style, dir, b) == joined_in(style, dir, c),
    ensures
        b == c,
{
    let d = dir.push(style.separator());
    assert((dir + b).skip(dir.len() as int) == b);
    assert((dir + c).skip(dir.len() as int) == c);
    assert((d + b).skip(d.len() as int) == b);
    assert((d + c).skip(d.len() as int) == c);
}

/// Two numbers give two paths in one style.
proof fn lemma_backups_of_one_style(style: PathStyle, base: Seq<char>, i: nat, j: nat)
    requires
        !is_literal(style, base),
        name_in(style, base) is Some,
        backup_in(style, base, i) == backup_in(style, base, j),
    ensures
        i == j,
{
    let name = name_in(style, base)->0;
    lemma_name(style, base);
    lemma_backup_name(reading(style, base), name, i);
    lemma_backup_name(reading(style, base), name, j);
    lemma_joined_differ(
        style,
        parent_in(style, base),
        backup_name(name, i),
        backup_name(name, j),
    );
    law_backup_names_differ(name, i, j);
}

/// Whether the first `q` characters are made of two that take turns.
proof fn lemma_turns(n: Seq<char>, q: int, x: int)
    requires
        2 <= q <= n.len(),
        0 <= x < q,
        forall|k: int| 2 <= k < q ==> #[trigger] n[k] == n[k - 2],
    ensures
        n[x] == n[0] || n[x] == n[1],
    decreases x,
{
    if x >= 2 {
        lemma_turns(n, q, x - 2);
    }
}

/// No name is that of a file whose backup has a drive before that name.
proof fn lemma_no_backup_of_its_own_name(name: Seq<char>, index: nat)
    requires
        is_drive_at(name, 0),
    ensures
        name != backup_name(name, index).skip(2),
{
    // What is inserted in the name would be a letter and a colon.
    let b = backup_name(name, index);
    let dot = last_dot(name);
    let digits = text::decimal(index);
    lemma_last_dot(name);
    lemma_last_dot_is_one(name);
    lemma_digits_without_dots(index);
    let q = if dot > 0 {
        dot
    } else {
        name.len() as int
    };
    assert(b == name.take(q) + seq!['.'] + digits + name.skip(q));
    assert(q >= 2);
    if name == b.skip(2) {
        assert forall|x: int| 2 <= x < q implies #[trigger] name[x] == name[x - 2] by {
            assert(b[x] == name[x]);
            assert(b[x] == b.skip(2)[x - 2]);
        }
        assert(b[q] == '.');
        assert(b[q] == b.skip(2)[q - 2]);
        lemma_turns(name, q, q - 2);
    }
}

/// No backup has the path of its file, where that is not taken literally and the
/// name is no drive.
proof fn lemma_backup_is_not_the_file(style: PathStyle, base: Seq<char>, index: nat)
    requires
        !is_literal(style, base),
        name_in(style, base) is Some,
        drive_len(style, name_in(style, base)->0) == 0,
    ensures
        backup_in(style, base, index) != base,
{
    let name = name_in(style, base)->0;
    lemma_name(style, base);
    lemma_backup_name(reading(style, base), name, index);
    lemma_backup_shape(style, base, index);
    law_backup_names_differ(name, index, index);
    if backup_in(style, base, index) == base {
        let sep = style.separator();
        lemma_read_back(style, base, parent_in(style, base), sep, backup_name(name, index));
    }
}

/// The same where the name begins like a drive.
proof fn lemma_backup_on_drive_is_not_the_file(base: Seq<char>, index: nat)
    requires
        !is_literal(PathStyle::Windows, base),
        name_in(PathStyle::Windows, base) is Some,
        is_drive_at(name_in(PathStyle::Windows, base)->0, 0),
    ensures
        backup_in(PathStyle::Windows, base, index) != base,
{
    lemma_backup_on_drive(base, index);
    lemma_no_backup_of_its_own_name(name_in(PathStyle::Windows, base)->0, index);
}

/// A backup stands beside its file: the same directory, and the backup's name in it.
/// Some paths that only Windows knows are left out, as the backup is read with another
/// name there: a name that begins like a drive, as `x:y` in `d\x:y`; a literal path
/// whose name holds a slash, which separates in the backup's path; and a file right
/// behind a server, as in `\\server\\x`, or behind the server of a literal path, as in
/// `\\?\UNC\server\\x`, whose backup's path names a share. What holds of such paths is
/// in `law_backup_keeps_directory_and_extension`.
pub proof fn law_backup_stands_beside_its_file(style: PathStyle, base: Seq<char>, index: nat)
    requires
        name_in(style, base) is Some,
        ({
            let name = name_in(style, base)->0;
            &&& drive_len(style, name) == 0
            &&& forall|i: int| 0 <= i < name.len() ==> !style.separates(#[trigger] name[i])
        }),
        style is Windows ==> !is_bare_server(parent_in(style, base)),
        is_literal(style, base) && is_literal_share(base) ==> literal_share_is_named(base),
    ensures
        name_in(style, backup_in(style, base, index)) == Some(
            backup_name(name_in(style, base)->0, index),
        ),
        directory_in(style, backup_in(style, base, index)) == directory_in(style, base),
{
    if is_literal(style, base) {
        let name = name_in(style, base)->0;
        assert forall|i: int| 0 <= i < name.len() implies !is_separator(#[trigger] name[i]) by {
            assert(!style.separates(name[i]));
        }
        literal::lemma_literal_backup_beside(base, index);
    } else {
        lemma_backup_beside(style, base, index);
    }
}

/// Whether two paths begin with the same drive. The case of its letter has no meaning.
pub open spec fn is_same_drive(a: Seq<char>, b: Seq<char>) -> bool {
    &&& is_drive_at(a, 0)
    &&& is_drive_at(b, 0)
    &&& a[0] == b[0] || a[0] as int - b[0] as int == 32 || b[0] as int - a[0] as int == 32
}

/// Whether two directories are one: they are written alike, or are the same drive.
pub open spec fn is_same_directory(a: Seq<char>, b: Seq<char>) -> bool {
    a == b || (a.len() == 2 && b.len() == 2 && is_same_drive(a, b))
}

/// Whether the backup of a file gets into the directory of the file, with the
/// extension of the file. A name that begins like a drive leads to that drive. In a
/// literal path the slashes of a name separate, in an extension too. And no file can
/// stand right behind a server: there its backup's path names a share.
pub open spec fn backup_stays(style: PathStyle, base: Seq<char>, index: nat) -> bool {
    let name = name_in(style, base)->0;
    if is_literal(style, base) {
        let rest = name.skip(extension_start(name));
        &&& is_literal_share(base) ==> literal_share_is_named(base)
        &&& prefix_len(style, backup_name(name, index)) == 0
        &&& forall|i: int| 0 <= i < rest.len() ==> !is_separator(#[trigger] rest[i])
        &&& literal::backup_directory(base) == directory_in(style, base)
    } else if drive_len(style, name) > 0 {
        is_same_directory(directory_in(style, base), name.take(2))
    } else {
        style is Windows ==> !is_bare_server(parent_in(style, base))
    }
}

/// The backup of a file whose name begins like a drive, in a path that is not taken
/// literally.
proof fn lemma_backup_on_drive(base: Seq<char>, index: nat)
    requires
        !is_literal(PathStyle::Windows, base),
        name_in(PathStyle::Windows, base) is Some,
        is_drive_at(name_in(PathStyle::Windows, base)->0, 0),
    ensures
        ({
            let w = PathStyle::Windows;
            let name = name_in(w, base)->0;
            let b = backup_name(name, index);
            &&& backup_in(w, base, index) == b
            &&& name_in(w, b) == Some(b.skip(2))
            &&& directory_in(w, b) == name.take(2)
        }),
{
    let w = PathStyle::Windows;
    let r = Reading::Windows;
    let name = name_in(w, base)->0;
    let b = backup_name(name, index);
    lemma_name(w, base);
    lemma_backup_name(r, name, index);
    assert(!is_separator(b[0]) && !is_separator(b[2]));
    assert(root_len(w, b) == 2);
    let rest = b.skip(2);
    lemma_name_behind_drive(name, index);
    assert forall|i: int| 0 <= i < rest.len() implies !r.separates(#[trigger] rest[i]) by {
        assert(rest[i] == b[i + 2]);
    }
    assert(b == b.take(2) + rest);
    lemma_read_back(w, b, b.take(2), '\\', rest);
}

/// What stands behind the drive in the name of a backup.
proof fn lemma_name_behind_drive(name: Seq<char>, index: nat)
    requires
        is_drive_at(name, 0),
    ensures
        backup_name(name, index).len() > 2,
        backup_name(name, index).take(2) == name.take(2),
        is_name(backup_name(name, index).skip(2)),
{
    let b = backup_name(name, index);
    let cut = extension_start(name);
    let rest = b.skip(2);
    let digits = text::decimal(index);
    lemma_backup_name_parts(name, index);
    lemma_last_dot_is_one(name);
    lemma_digits_without_dots(index);
    assert(cut >= 2);
    assert(b.take(2) == name.take(2));
    assert(rest[cut - 1] == digits[0]);
    assert(rest.len() + 2 >= cut + 1 + digits.len());
    if rest == seq!['.', '.'] {
        assert(rest.len() == 2);
        assert(rest[1] == '.');
    }
}

/// The extension of a backup whose name begins like a drive, with the drive and
/// without it.
proof fn lemma_extension_behind_drive(name: Seq<char>, index: nat)
    requires
        is_drive_at(name, 0),
        last_dot(name) > 0,
    ensures
        ({
            let rest = backup_name(name, index).skip(2);
            &&& last_dot(rest) > 0
            &&& rest.skip(last_dot(rest)) == name.skip(last_dot(name))
        }),
{
    let b = backup_name(name, index);
    let rest = b.skip(2);
    law_backup_keeps_extension(name, index);
    lemma_backup_name_parts(name, index);
    lemma_last_dot(b);
    lemma_last_dot_is_one(b);
    lemma_last_dot_is_one(name);
    lemma_last_dot(name);
    lemma_digits_without_dots(index);
    let dot = last_dot(b);
    assert(b.skip(dot).len() == name.skip(last_dot(name)).len());
    assert(dot > 2);
    assert(rest[dot - 2] == '.');
    assert forall|i: int| dot - 2 < i < rest.len() implies #[trigger] rest[i] != '.' by {
        assert(rest[i] == b[i + 2]);
    }
    lemma_last_dot_at(rest, dot - 2);
    assert(rest.skip(dot - 2) == b.skip(dot));
}

/// A backup keeps the directory and the extension of its file, on every path on which
/// it gets there: also where the name begins with the drive that is its directory, as
/// in `x:x:y.csv` with the backup `x:y.1.csv`, and where the slashes in the name of a
/// literal path lead back to its directory.
pub proof fn law_backup_keeps_directory_and_extension(
    style: PathStyle,
    base: Seq<char>,
    index: nat,
)
    requires
        name_in(style, base) is Some,
        backup_stays(style, base, index),
    ensures
        ({
            let name = name_in(style, base)->0;
            let t = backup_in(style, base, index);
            &&& name_in(style, t) is Some
            &&& is_same_directory(directory_in(style, base), directory_in(style, t))
            &&& last_dot(name) > 0 ==> {
                let backup = name_in(style, t)->0;
                &&& last_dot(backup) > 0
                &&& backup.skip(last_dot(backup)) == name.skip(last_dot(name))
            }
        }),
{
    let name = name_in(style, base)->0;
    if is_literal(style, base) {
        literal::law_place_of_a_literal_backup(base, index);
        literal::lemma_backup_component(name, index);
    } else if drive_len(style, name) > 0 {
        lemma_backup_on_drive(base, index);
        if last_dot(name) > 0 {
            lemma_extension_behind_drive(name, index);
        }
    } else {
        lemma_backup_beside(style, base, index);
        if last_dot(name) > 0 {
            law_backup_keeps_extension(name, index);
        }
    }
}

/// The backups with two numbers have two paths, and none has that of the file. Even
/// in different styles of writing two numbers never give one path.
pub proof fn law_backup_paths_differ(
    style: PathStyle,
    other: PathStyle,
    base: Seq<char>,
    i: nat,
    j: nat,
)
    requires
        name_in(style, base) is Some,
        name_in(other, base) is Some,
    ensures
        backup_in(style, base, i) == backup_in(other, base, j) ==> i == j,
        backup_in(style, base, i) != base,
{
    let literal = is_literal(PathStyle::Windows, base);
    if backup_in(style, base, i) == backup_in(other, base, j) {
        if style == other {
            if is_literal(style, base) {
                literal::lemma_literal_backups_differ(base, i, j);
            } else {
                lemma_backups_of_one_style(style, base, i, j);
            }
        } else {
            let (a, b) = if style is Slash {
                (i, j)
            } else {
                (j, i)
            };
            if literal {
                literal::lemma_literal_backups_of_two_styles(base, a, b);
            } else {
                lemma_backups_of_two_styles(base, a, b);
            }
        }
    }
    if is_literal(style, base) {
        literal::lemma_literal_backup_is_not_the_file(base, i);
    } else if drive_len(style, name_in(style, base)->0) == 0 {
        lemma_backup_is_not_the_file(style, base, i);
    } else {
        lemma_backup_on_drive_is_not_the_file(base, i);
    }
}

/// A path without a name at its end is its own backup.
pub proof fn law_path_without_name_has_no_backup(style: PathStyle, base: Seq<char>, index: nat)
    requires
        name_in(style, base) is None,
    ensures
        backup_in(style, base, index) == base,
{
}

/// A simple name is the name at its own end, and its backup is the backup's name.
pub proof fn law_backup_of_a_simple_name(style: PathStyle, name: Seq<char>, index: nat)
    requires
        is_simple_name(name),
    ensures
        name_in(style, name) == Some(name),
        backup_in(style, name, index) == backup_name(name, index),
{
    let r = reading(style, name);
    assert(!is_separator(name[0]));
    assert(name.len() >= 2 ==> name[1] != ':');
    assert forall|i: int| 0 <= i < name.len() implies !r.separates(#[trigger] name[i]) by {
        assert(!is_separator(name[i]));
    }
    let empty = Seq::<char>::empty();
    assert(name == empty + name);
    lemma_read_back(style, name, empty, style.separator(), name);
    lemma_backup_name(r, name, index);
}

/// The last full stop of a text with a full stop in its tail.
proof fn lemma_last_dot_of_tail(s: Seq<char>, k: int)
    requires
        0 <= k <= s.len(),
        last_dot(s.skip(k)) >= 0,
    ensures
        last_dot(s) == k + last_dot(s.skip(k)),
{
    let tail = s.skip(k);
    let dot = last_dot(tail);
    lemma_last_dot(tail);
    lemma_last_dot_is_one(tail);
    assert(s[k + dot] == tail[dot]);
    assert forall|i: int| k + dot < i < s.len() implies #[trigger] s[i] != '.' by {
        assert(s[i] == tail[i - k]);
    }
    lemma_last_dot_at(s, k + dot);
}

/// What a path is made of that consists of a directory, a backslash and a simple
/// name.
proof fn lemma_backslash_path(dir: Seq<char>, name: Seq<char>)
    requires
        is_simple_name(name),
        last_dot(name) > 0,
        forall|i: int| 0 <= i < dir.len() ==> #[trigger] dir[i] != '/',
    ensures
        ({
            let base = dir.push('\\') + name;
            let k = dir.len() + 1int;
            &&& name.len() >= 2
            &&& base.len() == k + name.len()
            &&& base.skip(k) == name
            &&& base.take(k) == dir.push('\\')
            &&& base[k - 1] == '\\'
            &&& base[base.len() - 1] == name[name.len() - 1]
            &&& base[base.len() - 2] == name[name.len() - 2]
            &&& forall|i: int| 0 <= i < base.len() ==> #[trigger] base[i] != '/'
            &&& forall|i: int|
                k <= i < base.len() ==> !is_separator(#[trigger] base[i]) && base[i] != ':'
            &&& !is_separator(name[name.len() - 1])
            &&& !is_separator(name[name.len() - 2])
        }),
{
    let base = dir.push('\\') + name;
    let k = dir.len() + 1int;
    lemma_last_dot(name);
    assert(base.skip(k) == name);
    assert(base.take(k) == dir.push('\\'));
    assert forall|i: int| k <= i < base.len() implies !is_separator(#[trigger] base[i]) && base[i]
        != ':' by {
        assert(base[i] == name[i - k]);
    }
    assert forall|i: int| 0 <= i < base.len() implies #[trigger] base[i] != '/' by {
        if i < dir.len() {
            assert(base[i] == dir[i]);
        } else if i >= k {
            assert(!is_separator(base[i]));
        }
    }
}

/// The backup's name of a path with a directory before the name.
proof fn lemma_backup_name_behind(before: Seq<char>, name: Seq<char>, index: nat)
    requires
        last_dot(name) > 0,
    ensures
        backup_name(before + name, index) == before + backup_name(name, index),
{
    let base = before + name;
    let k = before.len() as int;
    let dot = last_dot(name);
    assert(base.skip(k) == name);
    lemma_last_dot(name);
    lemma_last_dot_of_tail(base, k);
    assert(base.take(k + dot) == before + name.take(dot));
    assert(base.skip(k + dot) == name.skip(dot));
    assert(backup_name(base, index) == before + backup_name(name, index));
}

/// With slashes, a path written with backslashes is one name.
proof fn lemma_backslashes_read_as_name(dir: Seq<char>, name: Seq<char>, index: nat)
    requires
        is_simple_name(name),
        last_dot(name) > 0,
        forall|i: int| 0 <= i < dir.len() ==> #[trigger] dir[i] != '/',
    ensures
        backup_in(PathStyle::Slash, dir.push('\\') + name, index) == dir.push('\\') + backup_name(
            name,
            index,
        ),
{
    let base = dir.push('\\') + name;
    lemma_backslash_path(dir, name);
    lemma_one_slash_name(base, index);
    lemma_backup_name_behind(dir.push('\\'), name, index);
}

/// With slashes, a path without slashes is one name.
proof fn lemma_one_slash_name(base: Seq<char>, index: nat)
    requires
        base.len() >= 3,
        forall|i: int| 0 <= i < base.len() ==> #[trigger] base[i] != '/',
    ensures
        backup_in(PathStyle::Slash, base, index) == backup_name(base, index),
{
    let s = PathStyle::Slash;
    let empty = Seq::<char>::empty();
    assert(base[0] != '/');
    assert(root_len(s, base) == 0);
    assert(base == empty + base);
    assert forall|i: int| 0 <= i < base.len() implies !Reading::Slash.separates(
        #[trigger] base[i],
    ) by {
        assert(base[i] != '/');
    }
    lemma_read_back(s, base, empty, '/', base);
}

/// What a path with a backslash before its name has for a root on Windows.
proof fn lemma_backslash_root(dir: Seq<char>, name: Seq<char>)
    requires
        is_simple_name(name),
        name_in(PathStyle::Windows, dir.push('\\') + name) == Some(name),
    ensures
        ({
            let root = root_len(PathStyle::Windows, dir.push('\\') + name);
            &&& 0 <= root <= dir.len() + 1
            &&& dir.len() == 0 ==> root == 1
            &&& drive_len(PathStyle::Windows, dir) > 0 && dir.len() == 2 ==> root == 3
        }),
{
    let w = PathStyle::Windows;
    let base = dir.push('\\') + name;
    lemma_name(w, base);
    assert(name.len() > 0 && !is_separator(name[0]));
    if dir.len() == 0 {
        assert(base[0] == '\\' && base[1] == name[0]);
    }
    if dir.len() == 2 {
        assert(base[0] == dir[0] && base[1] == dir[1] && base[2] == '\\');
    }
}

/// On Windows, the directory of a path written with backslashes ends before the last
/// of them.
#[verifier::spinoff_prover]
proof fn lemma_backslashes_read_as_separators(dir: Seq<char>, name: Seq<char>, index: nat)
    requires
        is_simple_name(name),
        forall|i: int| 0 <= i < dir.len() ==> #[trigger] dir[i] != '/',
        dir.len() > 0 ==> dir.last() != '\\',
        dir.len() >= 2 && dir.last() == '.' ==> dir[dir.len() - 2] != '\\',
        !is_literal(PathStyle::Windows, dir.push('\\') + name),
        name_in(PathStyle::Windows, dir.push('\\') + name) == Some(name),
    ensures
        backup_in(PathStyle::Windows, dir.push('\\') + name, index) == dir.push('\\') + backup_name(
            name,
            index,
        ),
{
    let w = PathStyle::Windows;
    let base = dir.push('\\') + name;
    let b = backup_name(name, index);
    lemma_backslash_root(dir, name);
    lemma_backslash_parent(dir, name);
    assert forall|i: int| 0 <= i < name.len() implies !Reading::Windows.separates(
        #[trigger] name[i],
    ) by {
        assert(!is_separator(name[i]));
    }
    lemma_backup_name(Reading::Windows, name, index);
    assert(!is_drive_at(name, 0));
    if root_len(w, base) > dir.len() {
        assert(joined_in(w, dir.push('\\'), b) == dir.push('\\') + b);
    }
}

/// The directory of such a path: all before the last backslash, and that one too if it
/// belongs to the root.
proof fn lemma_backslash_parent(dir: Seq<char>, name: Seq<char>)
    requires
        is_simple_name(name),
        forall|i: int| 0 <= i < dir.len() ==> #[trigger] dir[i] != '/',
        dir.len() > 0 ==> dir.last() != '\\',
        dir.len() >= 2 && dir.last() == '.' ==> dir[dir.len() - 2] != '\\',
        !is_literal(PathStyle::Windows, dir.push('\\') + name),
        name_in(PathStyle::Windows, dir.push('\\') + name) == Some(name),
    ensures
        parent_in(PathStyle::Windows, dir.push('\\') + name) == (if root_len(
            PathStyle::Windows,
            dir.push('\\') + name,
        ) > dir.len() {
            dir.push('\\')
        } else {
            dir
        }),
{
    let w = PathStyle::Windows;
    let r = Reading::Windows;
    let base = dir.push('\\') + name;
    let root = root_len(w, base);
    lemma_backslash_root(dir, name);
    assert forall|i: int| 0 <= i < name.len() implies !r.separates(#[trigger] name[i]) by {
        assert(!is_separator(name[i]));
    }
    if root > dir.len() {
        lemma_read_back(w, base, dir.push('\\'), '\\', name);
    } else {
        if dir.len() > 0 {
            assert(dir[dir.len() - 1] != '/');
        }
        if dir.len() >= 2 {
            assert(dir[dir.len() - 2] != '/');
        }
        lemma_settled_stays(r, dir, root);
        lemma_read_back(w, base, dir, '\\', name);
    }
}

/// A file with an extension whose path is written with backslashes has the same
/// backups on every system: the number goes before the extension. Such are all paths
/// of a file in a directory on a drive or a share, like `C:\logs\metrics.csv` or
/// `\\?\C:\logs\metrics.csv`.
pub proof fn law_backup_of_a_windows_path(dir: Seq<char>, name: Seq<char>, index: nat)
    requires
        is_simple_name(name),
        last_dot(name) > 0,
        forall|i: int| 0 <= i < dir.len() ==> #[trigger] dir[i] != '/',
        name_in(PathStyle::Windows, dir.push('\\') + name) == Some(name),
        if is_literal(PathStyle::Windows, dir.push('\\') + name) {
            directory_in(PathStyle::Windows, dir.push('\\') + name) == dir
        } else {
            &&& dir.len() > 0 ==> dir.last() != '\\'
            &&& dir.len() >= 2 && dir.last() == '.' ==> dir[dir.len() - 2] != '\\'
        },
    ensures
        backup_in(PathStyle::Windows, dir.push('\\') + name, index) == dir.push('\\') + backup_name(
            name,
            index,
        ),
        backup_in(PathStyle::Slash, dir.push('\\') + name, index) == dir.push('\\') + backup_name(
            name,
            index,
        ),
{
    let base = dir.push('\\') + name;
    lemma_backslashes_read_as_name(dir, name, index);
    if is_literal(PathStyle::Windows, base) {
        lemma_last_dot(name);
        assert(name[1] != ':');
        literal::lemma_literal_backup_shape(base, index);
    } else {
        lemma_backslashes_read_as_separators(dir, name, index);
    }
}

/// Whether all systems see the same components in a path: there are no backslashes
/// and colons, and it does not begin with two slashes.
pub open spec fn is_portable(path: Seq<char>) -> bool {
    &&& forall|i: int| 0 <= i < path.len() ==> #[trigger] path[i] != '\\' && path[i] != ':'
    &&& !begins_twice(path)
}

/// A path without backslashes and colons settles alike in both styles.
proof fn lemma_settled_alike(path: Seq<char>, root: int)
    requires
        forall|i: int| 0 <= i < path.len() ==> #[trigger] path[i] != '\\',
    ensures
        settled(Reading::Slash, path, root) == settled(Reading::Windows, path, root),
        component_start(Reading::Slash, path, root) == component_start(
            Reading::Windows,
            path,
            root,
        ),
    decreases path.len(),
{
    reveal(settled);
    reveal(component_start);
    if path.len() > 0 {
        assert(path[path.len() - 1] == path.last());
        lemma_settled_alike(path.drop_last(), root);
    }
}

/// A portable path has the same name and directory on every system.
pub proof fn law_portable_path_is_read_alike(path: Seq<char>)
    requires
        is_portable(path),
    ensures
        name_in(PathStyle::Slash, path) == name_in(PathStyle::Windows, path),
        name_in(PathStyle::Slash, path) is Some ==> parent_in(PathStyle::Slash, path) == parent_in(
            PathStyle::Windows,
            path,
        ),
{
    let root = root_len(PathStyle::Slash, path);
    if path.len() >= 2 {
        assert(path[1] != ':');
    }
    assert(root == root_len(PathStyle::Windows, path));
    lemma_settled_alike(path, root);
    let t = trimmed_path(PathStyle::Slash, path);
    lemma_settled(Reading::Slash, path, root);
    assert forall|i: int| 0 <= i < t.len() implies #[trigger] t[i] != '\\' by {
        assert(t[i] == path[i]);
    }
    lemma_settled_alike(t, root);
    let k = name_start(PathStyle::Slash, path);
    lemma_component_start(Reading::Slash, t, root);
    assert forall|i: int| 0 <= i < t.take(k).len() implies #[trigger] t.take(k)[i] != '\\' by {
        assert(t.take(k)[i] == t[i]);
    }
    lemma_settled_alike(t.take(k), root);
}

/// The style of a system is that of Windows where a backslash separates components, and
/// that of slashes where it does not.
pub proof fn law_style_follows_the_backslash(backslash_separates: bool, style: PathStyle)
    requires
        call_ensures(PathStyle::of, (backslash_separates,), style),
    ensures
        style is Windows <==> backslash_separates,
        style is Slash <==> !backslash_separates,
{
}

/// The number of a backup stands before the last full stop of the name and what follows
/// it, with a full stop of its own. Where there is no full stop, or only one at the
/// beginning, it stands at the end.
pub proof fn law_number_stands_before_the_extension(
    name: &str,
    index: u32,
    stem: Seq<char>,
    extension: Seq<char>,
    number: String,
    s: String,
)
    requires
        call_ensures(backup_file_name, (name, index), s),
        call_ensures(text::decimal_string, (index as u64,), number),
        forall|i: int| 0 <= i < extension.len() ==> #[trigger] extension[i] != '.',
        ({
            ||| stem.len() > 0 && name@ == stem + seq!['.'] + extension
            ||| stem.len() == 0 && (name@ == extension || name@ == seq!['.'] + extension)
        }),
    ensures
        stem.len() > 0 ==> s@ == stem + seq!['.'] + number@ + seq!['.'] + extension,
        stem.len() == 0 ==> s@ == name@ + seq!['.'] + number@,
{
    let n = name@;
    let k = stem.len() as int;
    if stem.len() > 0 {
        assert(n[k] == '.');
        assert forall|i: int| k < i < n.len() implies #[trigger] n[i] != '.' by {
            assert(n[i] == extension[i - k - 1]);
        }
        lemma_last_dot_at(n, k);
        assert(n.take(k) == stem);
        assert(n.skip(k) == seq!['.'] + extension);
        assert(s@ == stem + seq!['.'] + number@ + seq!['.'] + extension);
    } else {
        lemma_last_dot(n);
        lemma_last_dot_is_one(n);
        let dot = last_dot(n);
        if dot > 0 {
            assert(n[dot] == '.');
            if n == extension {
                assert(extension[dot] == '.');
            } else {
                assert(n[dot] == extension[dot - 1]);
            }
        }
    }
}

/// What a path is read as in which a name without separators stands behind a separator.
proof fn lemma_name_behind_separator(
    style: PathStyle,
    dir: Seq<char>,
    sep: char,
    name: Seq<char>,
)
    requires
        sep == '/' || style is Windows && sep == '\\',
        is_name(name),
        forall|i: int| 0 <= i < name.len() ==> !style.separates(#[trigger] name[i]),
        style is Windows ==> !begins_twice(dir.push(sep) + name),
    ensures
        name_in(style, dir.push(sep) + name) == Some(name),
        0 <= root_len(style, dir.push(sep) + name) <= dir.len() + 1,
        reading(style, dir.push(sep) + name) == (if style is Windows {
            Reading::Windows
        } else {
            Reading::Slash
        }),
{
    let base = dir.push(sep) + name;
    let k = dir.len() + 1int;
    let r = reading(style, base);
    let root = root_len(style, base);
    assert(base[k - 1] == sep);
    if dir.len() < 2 && is_drive_at(base, 0) {
        assert(base[dir.len() as int] == sep);
    }
    assert(root <= k);
    assert forall|i: int| k <= i < base.len() implies !r.separates(#[trigger] base[i]) by {
        assert(base[i] == name[i - k]);
        assert(!style.separates(name[i - k]));
    }
    let end = base.len() - 1;
    if name.len() == 1 {
        assert(name =~= seq![name[0]]);
        assert(base[end] == name[0]);
    } else {
        assert(!r.separates(base[end - 1]));
    }
    assert(!r.separates(base[end]));
    lemma_settled_stays(r, base, root);
    lemma_component_start_at(r, base, root, k);
    assert(base.skip(k) == name);
}

/// The name at the end of a path is what stands behind its last separator, if that is
/// neither empty nor one or two full stops. With slashes, only a slash separates; on
/// Windows a backslash does so too.
pub proof fn law_name_stands_behind_the_last_separator(
    style: PathStyle,
    path: &str,
    dir: Seq<char>,
    sep: char,
    name: Seq<char>,
    r: Option<String>,
)
    requires
        call_ensures(final_name, (style, path), r),
        path@ == dir.push(sep) + name,
        sep == '/' || style is Windows && sep == '\\',
        name.len() > 0,
        forall|i: int|
            0 <= i < name.len() ==> #[trigger] name[i] != '/' && (style is Windows ==> name[i]
                != '\\'),
        style is Windows ==> path@[0] != '/' && path@[0] != '\\' || path@[1] != '/' && path@[1]
            != '\\',
    ensures
        name != seq!['.'] && name != seq!['.', '.'] ==> r is Some && r->0@ == name,
{
    if name != seq!['.'] && name != seq!['.', '.'] {
        assert forall|i: int| 0 <= i < name.len() implies !style.separates(#[trigger] name[i]) by {
            assert(name[i] != '/');
        }
        lemma_name_behind_separator(style, dir, sep, name);
    }
}

/// A path without separators is its own name, unless it consists of one or two full
/// stops; and the backup of a file with such a path has the name of the backup for its
/// path.
pub proof fn law_bare_name_is_its_own_path(
    style: PathStyle,
    path: &str,
    index: u32,
    b: String,
    backup: String,
    r: Option<String>,
)
    requires
        call_ensures(final_name, (style, path), r),
        call_ensures(backup_path_in, (style, path, index), backup),
        call_ensures(backup_file_name, (path, index), b),
        path@.len() > 0,
        forall|i: int|
            0 <= i < path@.len() ==> #[trigger] path@[i] != '/' && path@[i] != '\\' && path@[i]
                != ':',
        path@ != seq!['.'] && path@ != seq!['.', '.'],
    ensures
        r is Some && r->0@ == path@,
        backup@ == b@,
{
    assert forall|i: int| 0 <= i < path@.len() implies !is_separator(#[trigger] path@[i]) && path@[i]
        != ':' by {
        assert(path@[i] != '/');
    }
    law_backup_of_a_simple_name(style, path@, index as nat);
}

/// A separator at the end of a path, and one with a full stop behind it, change nothing.
pub proof fn law_separators_at_the_end_mean_nothing(
    style: PathStyle,
    path: &str,
    longer: &str,
    sep: char,
    r: (Option<String>, Option<String>),
)
    requires
        call_ensures(final_name, (style, path), r.0),
        call_ensures(final_name, (style, longer), r.1),
        sep == '/' || style is Windows && sep == '\\',
        longer@ == path@.push(sep) || longer@ == path@.push(sep).push('.'),
        path@.len() >= 3,
        style is Windows ==> path@[0] != '/' && path@[0] != '\\' || path@[1] != '/' && path@[1]
            != '\\',
    ensures
        r.0 is Some <==> r.1 is Some,
        r.0 is Some ==> r.0->0@ == r.1->0@,
{
    let p = path@;
    let q = p.push(sep);
    let l = longer@;
    let rd = reading(style, p);
    let root = root_len(style, p);
    assert(l[0] == p[0] && l[1] == p[1] && l[2] == p[2]);
    assert(q[0] == p[0] && q[1] == p[1] && q[2] == p[2]);
    assert(reading(style, l) == rd);
    assert(root_len(style, l) == root);
    assert(rd.separates(sep));
    assert(q.drop_last() == p);
    lemma_settled_drops(rd, q, root);
    if l != q {
        assert(l.drop_last() == q);
        assert(l[l.len() - 2] == sep);
        reveal(settled);
        assert(settled(rd, l, root) == settled(rd, q, root));
    }
}

/// The backup of a file in a directory stands in the same directory.
pub proof fn law_backup_stands_in_the_same_directory(
    style: PathStyle,
    base: &str,
    dir: Seq<char>,
    name: &str,
    index: u32,
    b: String,
    r: String,
)
    requires
        call_ensures(backup_path_in, (style, base, index), r),
        call_ensures(backup_file_name, (name, index), b),
        base@ == dir.push(match style {
            PathStyle::Slash => '/',
            PathStyle::Windows => '\\',
        }) + name@,
        name@.len() > 0 && name@ != seq!['.'] && name@ != seq!['.', '.'],
        forall|i: int|
            0 <= i < name@.len() ==> #[trigger] name@[i] != '/' && name@[i] != '\\' && name@[i]
                != ':',
        style is Slash && dir.len() > 0 ==> dir.last() != '/',
        style is Slash && dir.len() > 1 && dir.last() == '.' ==> dir[dir.len() - 2] != '/',
        style is Windows ==> {
            &&& forall|i: int| 0 <= i < dir.len() ==> #[trigger] dir[i] != '/'
            &&& dir.len() > 0 ==> dir.last() != '\\'
            &&& dir.len() > 1 && dir.last() == '.' ==> dir[dir.len() - 2] != '\\'
            &&& base@[0] != '\\' || base@[1] != '\\'
        },
    ensures
        r@ == base@.take(dir.len() + 1int) + b@,
{
    let sep = match style {
        PathStyle::Slash => '/',
        PathStyle::Windows => '\\',
    };
    let t = base@;
    let n = name@;
    assert forall|i: int| 0 <= i < n.len() implies !is_separator(#[trigger] n[i]) && n[i] != ':' by {
        assert(name@[i] != '/');
    }
    assert forall|i: int| 0 <= i < n.len() implies !style.separates(#[trigger] n[i]) by {
        assert(!is_separator(n[i]));
    }
    assert(t.take(dir.len() + 1int) == dir.push(sep));
    if style is Windows {
        assert(begins_twice(t) ==> t[0] == '/' || t[1] == '/');
        if dir.len() > 0 {
            assert(t[0] == dir[0]);
        }
        if dir.len() > 1 {
            assert(t[1] == dir[1]);
        }
        assert(!is_separator(n[0]));
        assert(dir.len() == 0 ==> t[1] == n[0]);
        assert(dir.len() == 1 ==> t[1] == '\\');
    }
    lemma_name_behind_separator(style, dir, sep, n);
    if style is Windows {
        lemma_backslashes_read_as_separators(dir, n, index as nat);
    } else {
        let root = root_len(style, t);
        if dir.len() > 0 {
            lemma_settled_stays(Reading::Slash, dir, root);
            lemma_read_back(style, t, dir, sep, n);
            assert(joined_in(style, dir, b@) == dir.push(sep) + b@);
        } else {
            assert(t[0] == sep);
            lemma_read_back(style, t, dir.push(sep), sep, n);
            assert(joined_in(style, dir.push(sep), b@) == dir.push(sep) + b@);
        }
    }
}

/// A file on a drive of Windows whose path names no directory: the backup stays on the
/// drive. A drive alone has no name and is its own backup.
pub proof fn law_backup_stays_on_its_drive(
    base: &str,
    letter: char,
    name: &str,
    index: u32,
    b: String,
    r: String,
    end: Option<String>,
)
    requires
        call_ensures(backup_path_in, (PathStyle::Windows, base, index), r),
        call_ensures(backup_file_name, (name, index), b),
        call_ensures(final_name, (PathStyle::Windows, base), end),
        base@ == seq![letter, ':'] + name@,
        'a' <= letter && letter <= 'z' || 'A' <= letter && letter <= 'Z',
        name@ != seq!['.'] && name@ != seq!['.', '.'],
        forall|i: int|
            0 <= i < name@.len() ==> #[trigger] name@[i] != '/' && name@[i] != '\\' && name@[i]
                != ':',
    ensures
        name@.len() == 0 ==> end is None && r@ == base@,
        name@.len() > 0 ==> end is Some && end->0@ == name@ && r@ == seq![letter, ':'] + b@,
{
    let w = PathStyle::Windows;
    let t = base@;
    let n = name@;
    let dir = seq![letter, ':'];
    assert(t[0] == letter && t[1] == ':');
    if n.len() > 0 {
        assert(t[2] == n[0]);
        assert forall|i: int| 0 <= i < n.len() implies !Reading::Windows.separates(
            #[trigger] n[i],
        ) by {
            assert(name@[i] != '/');
        }
        assert(root_len(w, t) == 2);
        lemma_read_back(w, t, dir, '\\', n);
        if n.len() > 1 {
            assert(name@[1] != ':');
        }
        lemma_backup_name(Reading::Windows, n, index as nat);
        assert(joined_in(w, dir, b@) == dir + b@);
    } else {
        assert(t =~= dir);
        assert(root_len(w, t) == 2);
        lemma_settled_stays(Reading::Windows, t, 2);
        lemma_component_start(Reading::Windows, t, 2);
        assert(t.skip(2) == Seq::<char>::empty());
    }
}

/// A path with two full stops behind its last separator ends in no name, and so it is
/// its own backup.
pub proof fn law_directory_above_has_no_name(
    style: PathStyle,
    path: &str,
    dir: Seq<char>,
    index: u32,
    r: Option<String>,
    backup: String,
)
    requires
        call_ensures(final_name, (style, path), r),
        call_ensures(backup_path_in, (style, path, index), backup),
        path@ == dir + seq!['/', '.', '.'],
        dir.len() > 0,
        style is Windows ==> dir[0] != '/' && dir[0] != '\\',
    ensures
        r is None,
        backup@ == path@,
{
    let t = path@;
    let n = seq!['.', '.'];
    let k = dir.len() + 1int;
    let rd = reading(style, t);
    let root = root_len(style, t);
    assert(t[0] == dir[0]);
    assert(t[k - 1] == '/' && t[k] == '.' && t[k + 1] == '.');
    assert(dir.len() == 1 ==> t[1] == '/');
    assert(root <= k);
    lemma_settled_stays(rd, t, root);
    lemma_component_start_at(rd, t, root, k);
    assert(t.skip(k) == n);
}

/// What the share of a network path is.
proof fn lemma_share(server: Seq<char>, share: Seq<char>, rest: Seq<char>)
    requires
        server.len() > 0 && server != seq!['.'] && server != seq!['?'],
        share.len() > 0,
        forall|i: int| 0 <= i < server.len() ==> !is_separator(#[trigger] server[i]),
        forall|i: int| 0 <= i < share.len() ==> !is_separator(#[trigger] share[i]),
        rest.len() > 0 ==> rest[0] == '\\',
    ensures
        ({
            let t = seq!['\\', '\\'] + server + seq!['\\'] + share + rest;
            let w = PathStyle::Windows;
            &&& prefix_len(w, t) == 3 + server.len() + share.len()
            &&& reading(w, t) is Windows
        }),
{
    let t = seq!['\\', '\\'] + server + seq!['\\'] + share + rest;
    let class = CharClass::PathSeparator;
    let (a, z) = (2 + server.len() as int, 3 + server.len() + share.len() as int);
    assert(t[0] == '\\' && t[1] == '\\');
    assert(t[2] == server[0]);
    assert(t[a] == '\\');
    assert forall|i: int| 2 <= i < a implies !is_separator(#[trigger] t[i]) by {
        assert(t[i] == server[i - 2]);
    }
    assert forall|i: int| a < i < z implies !is_separator(#[trigger] t[i]) by {
        assert(t[i] == share[i - a - 1]);
    }
    assert(rest.len() > 0 ==> t[z] == '\\');
    if server.len() == 1 {
        assert(server =~= seq![server[0]]);
    } else {
        assert(!is_separator(t[3]));
    }
    text::lemma_find_from(t, class, 2);
    text::lemma_find_from(t, class, a + 1);
}

/// The backup of a file on a network share stands on the same share, and the share itself
/// has no name and is its own backup.
pub proof fn law_backup_stays_on_its_share(
    base: &str,
    top: &str,
    server: Seq<char>,
    share: Seq<char>,
    name: &str,
    index: u32,
    b: String,
    r: (String, String),
    end: (Option<String>, Option<String>),
)
    requires
        call_ensures(backup_path_in, (PathStyle::Windows, base, index), r.0),
        call_ensures(backup_path_in, (PathStyle::Windows, top, index), r.1),
        call_ensures(final_name, (PathStyle::Windows, base), end.0),
        call_ensures(final_name, (PathStyle::Windows, top), end.1),
        call_ensures(backup_file_name, (name, index), b),
        server.len() > 0 && server != seq!['.'] && server != seq!['?'],
        share.len() > 0,
        name@.len() > 0 && name@ != seq!['.'] && name@ != seq!['.', '.'],
        forall|i: int| 0 <= i < server.len() ==> #[trigger] server[i] != '/' && server[i] != '\\',
        forall|i: int| 0 <= i < share.len() ==> #[trigger] share[i] != '/' && share[i] != '\\',
        forall|i: int|
            0 <= i < name@.len() ==> #[trigger] name@[i] != '/' && name@[i] != '\\' && name@[i]
                != ':',
        top@ == seq!['\\', '\\'] + server + seq!['\\'] + share,
        base@ == top@.push('\\') + name@,
    ensures
        end.0 is Some && end.0->0@ == name@,
        end.1 is None,
        r.0@ == top@.push('\\') + b@,
        r.1@ == top@,
{
    let w = PathStyle::Windows;
    let n = name@;
    let t = base@;
    let empty = Seq::<char>::empty();
    let rest = seq!['\\'] + n;
    assert forall|i: int| 0 <= i < server.len() implies !is_separator(#[trigger] server[i]) by {
        assert(server[i] != '/');
    }
    assert forall|i: int| 0 <= i < share.len() implies !is_separator(#[trigger] share[i]) by {
        assert(share[i] != '/');
    }
    assert(t == top@ + rest);
    assert(top@ == top@ + empty);
    lemma_share(server, share, rest);
    lemma_share(server, share, empty);
    let z = top@.len() as int;
    assert(t[z] == '\\');
    assert(root_len(w, t) == z + 1);
    assert(root_len(w, top@) == z);
    assert forall|i: int| 0 <= i < n.len() implies !Reading::Windows.separates(#[trigger] n[i]) by {
        assert(name@[i] != '/');
    }
    lemma_read_back(w, t, top@.push('\\'), '\\', n);
    if n.len() > 1 {
        assert(name@[1] != ':');
    }
    lemma_backup_name(Reading::Windows, n, index as nat);
    assert(!is_literal(w, t) && !is_literal(w, top@));
    assert(joined_in(w, top@.push('\\'), b@) == top@.push('\\') + b@);
    lemma_settled_stays(Reading::Windows, top@, z);
    lemma_component_start(Reading::Windows, top@, z);
    assert(top@.skip(z) == empty);
}

/// The backup of a file is the one in one of the two styles.
pub proof fn law_backup_is_one_of_a_style(base: &str, index: u32, r: (String, String, String))
    requires
        call_ensures(backup_path, (base, index), r.0),
        call_ensures(backup_path_in, (PathStyle::Windows, base, index), r.1),
        call_ensures(backup_path_in, (PathStyle::Slash, base, index), r.2),
    ensures
        r.0@ == r.1@ || r.0@ == r.2@,
{
}

/// A separator at the end of a path, and one with a full stop behind it, do not change
/// the backup either.
pub proof fn law_separators_at_the_end_keep_the_backup(
    style: PathStyle,
    path: &str,
    longer: &str,
    sep: char,
    index: u32,
    end: Option<String>,
    r: (String, String),
)
    requires
        call_ensures(final_name, (style, path), end),
        call_ensures(backup_path_in, (style, path, index), r.0),
        call_ensures(backup_path_in, (style, longer, index), r.1),
        sep == '/' || style is Windows && sep == '\\',
        longer@ == path@.push(sep) || longer@ == path@.push(sep).push('.'),
        path@.len() >= 3,
        style is Windows ==> path@[0] != '/' && path@[0] != '\\' || path@[1] != '/' && path@[1]
            != '\\',
        end is Some,
    ensures
        r.0@ == r.1@,
{
    let p = path@;
    let q = p.push(sep);
    let l = longer@;
    let rd = reading(style, p);
    let root = root_len(style, p);
    assert(l[0] == p[0] && l[1] == p[1] && l[2] == p[2]);
    assert(q[0] == p[0] && q[1] == p[1] && q[2] == p[2]);
    assert(reading(style, l) == rd);
    assert(root_len(style, l) == root);
    assert(q.drop_last() == p);
    lemma_settled_drops(rd, q, root);
    if l != q {
        assert(l.drop_last() == q);
        assert(l[l.len() - 2] == sep);
        reveal(settled);
        assert(settled(rd, l, root) == settled(rd, q, root));
    }
}

/// A run of separators at the end of a path falls away.
proof fn lemma_run_falls_away(reading: Reading, dir: Seq<char>, run: Seq<char>, root: int)
    requires
        0 <= root <= dir.len(),
        settled(reading, dir, root) == dir,
        forall|i: int| 0 <= i < run.len() ==> reading.separates(#[trigger] run[i]),
    ensures
        settled(reading, dir + run, root) == dir,
    decreases run.len(),
{
    if run.len() > 0 {
        let path = dir + run;
        assert(path.last() == run[run.len() - 1]);
        assert(path.drop_last() == dir + run.drop_last());
        lemma_settled_drops(reading, path, root);
        assert forall|i: int| 0 <= i < run.drop_last().len() implies reading.separates(
            #[trigger] run.drop_last()[i],
        ) by {
            assert(run.drop_last()[i] == run[i]);
        }
        lemma_run_falls_away(reading, dir, run.drop_last(), root);
    } else {
        assert(dir + run == dir);
    }
}

/// Between a directory and a name, any number of separators counts as one, and the backup
/// has the one of the style there.
pub proof fn law_separators_in_a_row_count_once(
    style: PathStyle,
    base: &str,
    dir: Seq<char>,
    run: Seq<char>,
    name: &str,
    index: u32,
    b: String,
    r: String,
)
    requires
        call_ensures(backup_path_in, (style, base, index), r),
        call_ensures(backup_file_name, (name, index), b),
        base@ == dir + run + name@,
        run.len() > 0,
        forall|i: int|
            0 <= i < run.len() ==> #[trigger] run[i] == '/' || style is Windows && run[i] == '\\',
        name@.len() > 0 && name@ != seq!['.'] && name@ != seq!['.', '.'],
        forall|i: int|
            0 <= i < name@.len() ==> #[trigger] name@[i] != '/' && name@[i] != '\\' && name@[i]
                != ':',
        dir.len() > 0,
        dir.last() != '/' && dir.last() != '\\',
        dir.len() > 1 && dir.last() == '.' ==> dir[dir.len() - 2] != '/' && dir[dir.len() - 2]
            != '\\',
        style is Windows ==> !(dir.len() == 2 && dir[1] == ':'),
        style is Windows && dir.len() > 1 ==> dir[0] != '/' && dir[0] != '\\' || dir[1] != '/'
            && dir[1] != '\\',
    ensures
        style is Slash ==> r@ == dir.push('/') + b@,
        style is Windows ==> r@ == dir.push('\\') + b@,
{
    let t = base@;
    let n = name@;
    let head = dir + run.drop_last();
    let sep = run.last();
    assert(run[run.len() - 1] == sep);
    assert(dir + run == head.push(sep));
    assert(t == head.push(sep) + n);
    assert(t[0] == dir[0]);
    assert(dir.len() == 1 ==> t[1] == run[0]);
    assert(dir.len() > 1 ==> t[1] == dir[1]);
    assert(dir.len() > 2 ==> t[2] == dir[2]);
    assert forall|i: int| 0 <= i < n.len() implies !is_separator(#[trigger] n[i]) && n[i] != ':' by {
        assert(name@[i] != '/');
    }
    assert forall|i: int| 0 <= i < n.len() implies !style.separates(#[trigger] n[i]) by {
        assert(!is_separator(n[i]));
    }
    lemma_name_behind_separator(style, head, sep, n);
    let rd = reading(style, t);
    let root = root_len(style, t);
    let k = t.len() - n.len();
    assert(root <= dir.len());
    lemma_settled_stays(rd, dir, root);
    lemma_run_falls_away(rd, dir, run, root);
    assert(t.take(k) == dir + run);
    assert forall|i: int| 0 <= i < n.len() implies !rd.separates(#[trigger] n[i]) by {
        assert(!style.separates(n[i]));
    }
    assert forall|i: int| k <= i < t.len() implies !rd.separates(#[trigger] t[i]) by {
        assert(t[i] == n[i - k]);
    }
    assert(t[k - 1] == sep);
    let last = t.len() - 1;
    if n.len() == 1 {
        assert(n =~= seq![n[0]]);
        assert(t[last] == n[0]);
    } else {
        assert(!rd.separates(t[last - 1]));
    }
    lemma_settled_stays(rd, t, root);
    lemma_component_start_at(rd, t, root, k);
    assert(parent_in(style, t) == dir);
    lemma_backup_name(rd, n, index as nat);
    if n.len() > 1 {
        assert(name@[1] != ':');
    }
    assert(!is_drive_at(n, 0));
    assert(!is_literal(style, t));
    assert(joined_in(style, dir, b@) == dir.push(style.separator()) + b@);
}

/// The backup of a file of a device of Windows stands at the same device.
pub proof fn law_backup_stays_at_its_device(
    base: &str,
    device: Seq<char>,
    name: &str,
    index: u32,
    b: String,
    r: String,
    end: Option<String>,
)
    requires
        call_ensures(backup_path_in, (PathStyle::Windows, base, index), r),
        call_ensures(final_name, (PathStyle::Windows, base), end),
        call_ensures(backup_file_name, (name, index), b),
        device.len() > 0,
        name@.len() > 0 && name@ != seq!['.'] && name@ != seq!['.', '.'],
        forall|i: int| 0 <= i < device.len() ==> #[trigger] device[i] != '/' && device[i] != '\\',
        forall|i: int|
            0 <= i < name@.len() ==> #[trigger] name@[i] != '/' && name@[i] != '\\' && name@[i]
                != ':',
        base@ == seq!['\\', '\\', '.', '\\'] + device + seq!['\\'] + name@,
    ensures
        end is Some && end->0@ == name@,
        r@ == seq!['\\', '\\', '.', '\\'] + device + seq!['\\'] + b@,
{
    let w = PathStyle::Windows;
    let class = CharClass::PathSeparator;
    let n = name@;
    let t = base@;
    let top = seq!['\\', '\\', '.', '\\'] + device + seq!['\\'];
    let z = 4 + device.len() as int;
    assert(t == top + n);
    assert(t[0] == '\\' && t[1] == '\\' && t[2] == '.' && t[3] == '\\' && t[z] == '\\');
    assert forall|i: int| 4 <= i < z implies !is_separator(#[trigger] t[i]) by {
        assert(t[i] == device[i - 4]);
    }
    text::lemma_find_from(t, class, 4);
    assert(prefix_len(w, t) == z);
    assert(root_len(w, t) == z + 1);
    assert forall|i: int| 0 <= i < n.len() implies !Reading::Windows.separates(#[trigger] n[i]) by {
        assert(name@[i] != '/');
    }
    lemma_read_back(w, t, top, '\\', n);
    if n.len() > 1 {
        assert(name@[1] != ':');
    }
    lemma_backup_name(Reading::Windows, n, index as nat);
    assert(joined_in(w, top, b@) == top + b@);
}

/// The backup of a file in a directory on a network share stands in the same directory.
pub proof fn law_backup_stays_in_its_directory_on_a_share(
    base: &str,
    server: Seq<char>,
    share: Seq<char>,
    dirs: Seq<char>,
    name: &str,
    index: u32,
    b: String,
    r: String,
    end: Option<String>,
)
    requires
        call_ensures(backup_path_in, (PathStyle::Windows, base, index), r),
        call_ensures(final_name, (PathStyle::Windows, base), end),
        call_ensures(backup_file_name, (name, index), b),
        server.len() > 0 && server != seq!['.'] && server != seq!['?'],
        share.len() > 0,
        name@.len() > 0 && name@ != seq!['.'] && name@ != seq!['.', '.'],
        forall|i: int| 0 <= i < server.len() ==> #[trigger] server[i] != '/' && server[i] != '\\',
        forall|i: int| 0 <= i < share.len() ==> #[trigger] share[i] != '/' && share[i] != '\\',
        forall|i: int|
            0 <= i < name@.len() ==> #[trigger] name@[i] != '/' && name@[i] != '\\' && name@[i]
                != ':',
        dirs.len() > 1 && dirs[0] == '\\' && dirs.last() != '\\' && dirs.last() != '/',
        dirs.last() == '.' ==> dirs[dirs.len() - 2] != '\\' && dirs[dirs.len() - 2] != '/',
        base@ == seq!['\\', '\\'] + server + seq!['\\'] + share + dirs + seq!['\\'] + name@,
    ensures
        end is Some && end->0@ == name@,
        r@ == seq!['\\', '\\'] + server + seq!['\\'] + share + dirs + seq!['\\'] + b@,
{
    let w = PathStyle::Windows;
    let rd = Reading::Windows;
    let n = name@;
    let t = base@;
    let top = seq!['\\', '\\'] + server + seq!['\\'] + share;
    let dir = top + dirs;
    let rest = dirs + seq!['\\'] + n;
    assert forall|i: int| 0 <= i < server.len() implies !is_separator(#[trigger] server[i]) by {
        assert(server[i] != '/');
    }
    assert forall|i: int| 0 <= i < share.len() implies !is_separator(#[trigger] share[i]) by {
        assert(share[i] != '/');
    }
    assert(t == top + rest);
    assert(t == dir.push('\\') + n);
    assert(rest[0] == '\\');
    lemma_share(server, share, rest);
    let z = top.len() as int;
    assert(t[z] == '\\');
    assert(root_len(w, t) == z + 1);
    assert forall|i: int| 0 <= i < n.len() implies !rd.separates(#[trigger] n[i]) by {
        assert(name@[i] != '/');
    }
    assert(dir.last() == dirs.last());
    assert(dir[dir.len() - 2] == dirs[dirs.len() - 2]);
    lemma_settled_stays(rd, dir, z + 1);
    lemma_read_back(w, t, dir, '\\', n);
    if n.len() > 1 {
        assert(name@[1] != ':');
    }
    lemma_backup_name(rd, n, index as nat);
    assert(!is_literal(w, t));
    assert(dir[0] == '\\');
    assert(joined_in(w, dir, b@) == dir.push('\\') + b@);
    assert(dir.push('\\') + b@ == top + dirs + seq!['\\'] + b@);
}

} // verus!
