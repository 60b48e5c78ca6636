//! The paths that requests name, and the files that they may reach.
use vstd::prelude::*;

use crate::lists;
use crate::text;
use crate::text::{chars_of, push_range, same_text, split_on, string_of};

verus! {

// ---------------------------------------------------------------------------
// Relative paths
// ---------------------------------------------------------------------------
/// A name that stands for an entry of a directory: neither empty nor one of the two
/// that stand for the directory itself and for its parent, and in one piece.
pub open spec fn plain_name(name: Seq<char>) -> bool {
    &&& name.len() > 0
    &&& !text::has_char(name, '/')
    &&& name != "."@
    &&& name != ".."@
}

/// All of the names are plain.
pub open spec fn plain_names(names: Seq<Seq<char>>) -> bool {
    forall|i: int| 0 <= i < names.len() ==> plain_name(#[trigger] names[i])
}

/// Whose rules paths follow.
#[derive(Clone, Copy, Debug, PartialEq, Eq, Structural)]
pub enum Platform {
    /// Names stand between slashes.
    Unix,
    /// Names stand between slashes or backslashes, and a path can start at a drive.
    Windows,
}

/// `c` stands between names.
pub open spec fn is_separator(platform: Platform, c: char) -> bool {
    c == '/' || (platform == Platform::Windows && c == '\\')
}

/// The names with the separator between each and the next.
pub open spec fn joined_by(names: Seq<Seq<char>>, separator: Seq<char>) -> Seq<char>
    decreases names.len(),
{
    if names.len() == 0 {
        Seq::empty()
    } else if names.len() == 1 {
        names[0]
    } else {
        joined_by(names.drop_last(), separator) + separator + names.last()
    }
}

/// The names with a slash between each and the next.
pub open spec fn joined(names: Seq<Seq<char>>) -> Seq<char> {
    joined_by(names, "/"@)
}

/// The names as the platform shows them: with a slash between each and the next, or on Windows
/// with a backslash.
pub open spec fn shown(platform: Platform, names: Seq<Seq<char>>) -> Seq<char> {
    match platform {
        Platform::Unix => joined_by(names, "/"@),
        Platform::Windows => joined_by(names, "\\"@),
    }
}

/// A path that leads from a directory down to one of its descendants, or nowhere.
pub struct RelativePath {
    names: Vec<String>,
}

impl View for RelativePath {
    type V = Seq<Seq<char>>;

    closed spec fn view(&self) -> Seq<Seq<char>> {
        text::texts(self.names@)
    }
}

impl RelativePath {
    #[verifier::type_invariant]
    spec fn leads_down(&self) -> bool {
        plain_names(self@)
    }

    /// The path as text, with a slash between each name and the next.
    pub fn text(&self) -> (r: String)
        ensures
            r@ == joined(self@),
            plain_names(self@),
    {
        self.text_by("/")
    }

    /// The path as text, as the platform shows it.
    pub fn text_on(&self, platform: Platform) -> (r: String)
        ensures
            r@ == shown(platform, self@),
            plain_names(self@),
    {
        match platform {
            Platform::Unix => self.text_by("/"),
            Platform::Windows => self.text_by("\\"),
        }
    }

    /// The path as text, with the separator between each name and the next.
    fn text_by(&self, separator: &str) -> (r: String)
        ensures
            r@ == joined_by(self@, separator@),
            plain_names(self@),
    {
        proof {
            use_type_invariant(self);
        }
        let ghost all = self@;
        let mut out: String = String::new();
        let mut i: usize = 0;
        while i < self.names.len()
            invariant
                all == self@,
                i <= self.names@.len(),
                all.len() == self.names@.len(),
                out@ == joined_by(all.take(i as int), separator@),
            decreases self.names@.len() - i,
        {
            let ghost before = out@;
            if i > 0 {
                out.append(separator);
            }
            out.append(self.names[i].as_str());
            proof {
                let next = all.take(i + 1);
                assert(next.drop_last() =~= all.take(i as int));
                assert(next.last() == self.names@[i as int]@);
                assert(out@ =~= joined_by(next, separator@));
            }
            i += 1;
        }
        proof {
            assert(all.take(all.len() as int) =~= all);
        }
        out
    }

    /// Whether the path leads nowhere.
    pub fn is_empty(&self) -> (r: bool)
        ensures
            r == (self@.len() == 0),
    {
        self.names.len() == 0
    }

    /// The path without its last name; a path that leads nowhere is its own parent.
    pub fn parent(&self) -> (r: RelativePath)
        ensures
            r@ == (if self@.len() == 0 {
                self@
            } else {
                self@.drop_last()
            }),
            plain_names(self@),
    {
        proof {
            use_type_invariant(self);
        }
        let ghost all = self@;
        let mut names: Vec<String> = Vec::new();
        let mut i: usize = 0;
        while i < self.names.len() && i + 1 < self.names.len()
            invariant
                all == self@,
                plain_names(all),
                i <= self.names@.len(),
                all.len() == self.names@.len(),
                all.len() > 0 ==> i < all.len(),
                text::texts(names@) == all.take(i as int),
            decreases self.names@.len() - i,
        {
            let ghost before = names@;
            names.push(self.names[i].clone());
            proof {
                assert(text::texts(names@) =~= text::texts(before).push(all[i as int]));
                assert(all.take(i + 1) =~= all.take(i as int).push(all[i as int]));
            }
            i += 1;
        }
        proof {
            if all.len() > 0 {
                assert(all.take(i as int) =~= all.drop_last());
            } else {
                assert(all.take(i as int) =~= all);
            }
        }
        RelativePath { names }
    }
}

// ---------------------------------------------------------------------------
// Paths of requests
// ---------------------------------------------------------------------------
/// The path that a location names: without its leading slash, which only an empty
/// location may lack.
pub open spec fn normalized(loc: Seq<char>) -> Option<Seq<char>> {
    if loc.len() == 0 {
        Some(loc)
    } else if loc[0] == '/' {
        Some(loc.skip(1))
    } else {
        None
    }
}

/// The path that a location names.
pub fn normalize_loc(loc: &str) -> (r: Option<String>)
    ensures
        match r {
            Some(path) => normalized(loc@) == Some(path@),
            None => normalized(loc@) is None,
        },
{
    let chars: Vec<char> = chars_of(loc);
    if chars.len() == 0 {
        proof {
            assert(loc@ =~= Seq::<char>::empty());
        }
        return Some(String::new());
    }
    if chars[0] != '/' {
        return None;
    }
    let mut rest: Vec<char> = Vec::new();
    push_range(&mut rest, chars.as_slice(), 1, chars.len());
    proof {
        assert(rest@ =~= loc@.skip(1));
    }
    Some(string_of(rest.as_slice()))
}

/// A piece of a path that names an entry, not the directory reached so far.
pub open spec fn names_entry(piece: Seq<char>) -> bool {
    piece.len() > 0 && piece != "."@
}

/// The names along a path that leads down. A path that starts at the root of the file
/// system, or that climbs to a parent anywhere, leads nowhere that may be reached.
pub open spec fn sanitized(path: Seq<char>) -> Option<Seq<Seq<char>>> {
    let parts = text::pieces(path, '/');
    if path.len() > 0 && path[0] == '/' {
        None
    } else if parts.contains(".."@) {
        None
    } else {
        Some(parts.filter(|piece: Seq<char>| names_entry(piece)))
    }
}

/// Sanitizing gives plain names only.
proof fn lemma_sanitized_plain(path: Seq<char>)
    ensures
        sanitized(path) matches Some(names) ==> plain_names(names),
{
    if let Some(names) = sanitized(path) {
        let parts = text::pieces(path, '/');
        text::lemma_pieces_clean(path, '/');
        lists::lemma_filter_within(parts, |piece: Seq<char>| names_entry(piece));
        assert forall|i: int| 0 <= i < names.len() implies plain_name(#[trigger] names[i]) by {
            let k = choose|k: int| 0 <= k < parts.len() && parts[k] == names[i];
            assert(parts.contains(parts[k]));
        }
    }
}

/// The path that leads down along the given text, if it does lead down.
pub fn sanitize_path(path: &str) -> (r: Option<RelativePath>)
    ensures
        match r {
            Some(relative) => sanitized(path@) == Some(relative@) && plain_names(relative@),
            None => sanitized(path@) is None,
        },
{
    let chars: Vec<char> = chars_of(path);
    if chars.len() > 0 && chars[0] == '/' {
        return None;
    }
    let parts: Vec<Vec<char>> = split_on(chars.as_slice(), '/');
    let ghost all = text::pieces(path@, '/');
    let ghost keep = |piece: Seq<char>| names_entry(piece);
    let mut names: Vec<String> = Vec::new();
    let mut i: usize = 0;
    while i < parts.len()
        invariant
            keep == (|piece: Seq<char>| names_entry(piece)),
            all == parts@.map_values(|v: Vec<char>| v@),
            i <= parts@.len(),
            forall|k: int| 0 <= k < i ==> #[trigger] all[k] != ".."@,
            text::texts(names@) == all.take(i as int).filter(keep),
            all == text::pieces(path@, '/'),
        decreases parts@.len() - i,
    {
        let name: String = string_of(parts[i].as_slice());
        proof {
            assert(all[i as int] == name@);
        }
        if same_text(name.as_str(), "..") {
            proof {
                assert(all.contains(all[i as int]));
            }
            return None;
        }
        proof {
            assert(all.take(i + 1) =~= all.take(i as int).push(all[i as int]));
            lists::lemma_filter_push(all.take(i as int), all[i as int], keep);
        }
        if parts[i].len() > 0 && !same_text(name.as_str(), ".") {
            let ghost before = names@;
            let ghost piece = name@;
            names.push(name);
            proof {
                assert(text::texts(names@) =~= text::texts(before).push(piece));
            }
        }
        i += 1;
    }
    proof {
        assert(all.take(all.len() as int) =~= all);
        assert(!all.contains(".."@));
        lemma_sanitized_plain(path@);
    }
    Some(RelativePath { names })
}

// ---------------------------------------------------------------------------
// Paths of requests on Windows
// ---------------------------------------------------------------------------
/// The text starts at a drive: with an ASCII letter and a colon.
pub open spec fn at_drive(s: Seq<char>) -> bool {
    &&& s.len() >= 2
    &&& ('a' <= s[0] <= 'z' || 'A' <= s[0] <= 'Z')
    &&& s[1] == ':'
}

/// The path with a slash in place of each backslash.
pub open spec fn slashed(path: Seq<char>) -> Seq<char> {
    path.map_values(
        |c: char|
            if c == '\\' {
                '/'
            } else {
                c
            },
    )
}

/// One of the pieces starts at a drive.
pub open spec fn has_drive(parts: Seq<Seq<char>>) -> bool {
    exists|i: int| 0 <= i < parts.len() && at_drive(#[trigger] parts[i])
}

/// The names along a path that leads down on Windows. Slashes and backslashes separate alike. A
/// path that starts with one of them, and so at the root of a drive, at a share or at a device,
/// leads nowhere that may be reached, nor does one that climbs to a parent, or goes to a drive,
/// anywhere.
pub open spec fn windows_sanitized(path: Seq<char>) -> Option<Seq<Seq<char>>> {
    if has_drive(text::pieces(slashed(path), '/')) {
        None
    } else {
        sanitized(slashed(path))
    }
}

/// A name that stands for an entry of a directory on Windows: a plain one without a backslash,
/// which does not start at a drive.
pub open spec fn windows_plain_name(name: Seq<char>) -> bool {
    &&& plain_name(name)
    &&& !text::has_char(name, '\\')
    &&& !at_drive(name)
}

/// All of the names are plain on Windows.
pub open spec fn windows_plain_names(names: Seq<Seq<char>>) -> bool {
    forall|i: int| 0 <= i < names.len() ==> windows_plain_name(#[trigger] names[i])
}

/// No backslash is left, and other characters stay.
proof fn lemma_slashed(path: Seq<char>)
    ensures
        slashed(path).len() == path.len(),
        !text::has_char(slashed(path), '\\'),
{
}

/// A piece that starts at a drive is among the names, if any are let through.
proof fn lemma_drives_are_names(path: Seq<char>)
    ensures
        sanitized(path) matches Some(names) ==> has_drive(names) == has_drive(
            text::pieces(path, '/'),
        ),
{
    if let Some(names) = sanitized(path) {
        let parts = text::pieces(path, '/');
        let keep = |piece: Seq<char>| names_entry(piece);
        reveal_strlit(".");
        lists::lemma_filter_within(parts, keep);
        if has_drive(names) {
            let i = choose|i: int| 0 <= i < names.len() && at_drive(#[trigger] names[i]);
            let k = choose|k: int| 0 <= k < parts.len() && parts[k] == names[i];
            assert(at_drive(parts[k]));
        }
        if has_drive(parts) {
            let k = choose|k: int| 0 <= k < parts.len() && at_drive(#[trigger] parts[k]);
            assert(keep(parts[k]));
            lists::lemma_filter_contains(parts, keep, k);
            let i = choose|i: int| 0 <= i < names.len() && names[i] == parts[k];
            assert(at_drive(names[i]));
        }
    }
}

/// Sanitizing on Windows gives names only that are plain there.
proof fn lemma_windows_sanitized_plain(path: Seq<char>)
    ensures
        windows_sanitized(path) matches Some(names) ==> windows_plain_names(names),
{
    if let Some(names) = windows_sanitized(path) {
        let plain = slashed(path);
        let parts = text::pieces(plain, '/');
        lemma_sanitized_plain(plain);
        lemma_slashed(path);
        text::lemma_pieces_chars(plain, '/');
        lists::lemma_filter_within(parts, |piece: Seq<char>| names_entry(piece));
        assert forall|i: int| 0 <= i < names.len() implies windows_plain_name(
            #[trigger] names[i],
        ) by {
            let k = choose|k: int| 0 <= k < parts.len() && parts[k] == names[i];
            assert forall|j: int| 0 <= j < names[i].len() implies names[i][j] != '\\' by {
                assert(text::has_char(plain, parts[k][j]));
            }
            assert(!at_drive(parts[k]));
            assert(plain_name(names[i]));
        }
    }
}

/// Whether a text starts at a drive.
fn starts_at_drive(s: &[char]) -> (r: bool)
    ensures
        r == at_drive(s@),
{
    s.len() >= 2 && (('a' <= s[0] && s[0] <= 'z') || ('A' <= s[0] && s[0] <= 'Z')) && s[1] == ':'
}

/// The path that leads down along the given text on Windows, if it does lead down.
pub fn sanitize_windows_path(path: &str) -> (r: Option<RelativePath>)
    ensures
        match r {
            Some(relative) => windows_sanitized(path@) == Some(relative@) && windows_plain_names(
                relative@,
            ),
            None => windows_sanitized(path@) is None,
        },
{
    let chars: Vec<char> = chars_of(path);
    let mut plain: Vec<char> = Vec::new();
    for i in 0..chars.len()
        invariant
            chars@ == path@,
            plain@ == slashed(path@).take(i as int),
    {
        let c: char = if chars[i] == '\\' {
            '/'
        } else {
            chars[i]
        };
        plain.push(c);
        proof {
            assert(slashed(path@).take(i + 1) =~= slashed(path@).take(i as int).push(c));
        }
    }
    proof {
        assert(plain@ =~= slashed(path@));
        lemma_drives_are_names(slashed(path@));
        lemma_windows_sanitized_plain(path@);
    }
    let relative: RelativePath = match sanitize_path(string_of(plain.as_slice()).as_str()) {
        Some(relative) => relative,
        None => {
            return None;
        },
    };
    let ghost names = relative@;
    let mut i: usize = 0;
    while i < relative.names.len()
        invariant
            i <= relative.names@.len(),
            names == relative@,
            names == text::texts(relative.names@),
            has_drive(names) == has_drive(text::pieces(slashed(path@), '/')),
            forall|k: int| 0 <= k < i ==> !at_drive(#[trigger] names[k]),
        decreases relative.names@.len() - i,
    {
        proof {
            assert(names[i as int] == relative.names@[i as int]@);
        }
        if starts_at_drive(chars_of(relative.names[i].as_str()).as_slice()) {
            proof {
                assert(has_drive(names));
            }
            return None;
        }
        i += 1;
    }
    Some(relative)
}

// ---------------------------------------------------------------------------
// Paths of requests on either platform
// ---------------------------------------------------------------------------
/// The names along a path that leads down, by the platform's rules.
pub open spec fn sanitized_on(platform: Platform, path: Seq<char>) -> Option<Seq<Seq<char>>> {
    match platform {
        Platform::Unix => sanitized(path),
        Platform::Windows => windows_sanitized(path),
    }
}

/// The name is plain by the platform's rules.
pub open spec fn plain_name_on(platform: Platform, name: Seq<char>) -> bool {
    match platform {
        Platform::Unix => plain_name(name),
        Platform::Windows => windows_plain_name(name),
    }
}

/// All of the names are plain by the platform's rules.
pub open spec fn plain_names_on(platform: Platform, names: Seq<Seq<char>>) -> bool {
    forall|i: int| 0 <= i < names.len() ==> plain_name_on(platform, #[trigger] names[i])
}

/// The path that leads down along the given text by the platform's rules, if it does lead down.
pub fn sanitize_path_on(platform: Platform, path: &str) -> (r: Option<RelativePath>)
    ensures
        match r {
            Some(relative) => sanitized_on(platform, path@) == Some(relative@),
            None => sanitized_on(platform, path@) is None,
        },
{
    match platform {
        Platform::Unix => sanitize_path(path),
        Platform::Windows => sanitize_windows_path(path),
    }
}

// ---------------------------------------------------------------------------
// Joining
// ---------------------------------------------------------------------------
/// `tail` as seen from `base`: `tail` itself, where it starts at the root.
pub open spec fn joined_to(base: Seq<char>, tail: Seq<char>) -> Seq<char> {
    if tail.len() > 0 && tail[0] == '/' {
        tail
    } else if base.len() == 0 || base.last() == '/' {
        base + tail
    } else {
        base + "/"@ + tail
    }
}

/// `tail` as seen from `base`.
pub fn join_path(base: &str, tail: &str) -> (r: String)
    ensures
        r@ == joined_to(base@, tail@),
{
    let front: Vec<char> = chars_of(base);
    let back: Vec<char> = chars_of(tail);
    if back.len() > 0 && back[0] == '/' {
        return tail.to_owned();
    }
    let mut out: String = base.to_owned();
    if front.len() > 0 && front[front.len() - 1] != '/' {
        out.append("/");
    }
    out.append(tail);
    out
}

// ---------------------------------------------------------------------------
// Laws
// ---------------------------------------------------------------------------
proof fn lemma_dots()
    ensures
        "/"@ == seq!['/'],
        "."@ == seq!['.'],
        ".."@ == seq!['.', '.'],
        !text::has_char("."@, '/'),
        !text::has_char(".."@, '/'),
{
    reveal_strlit("/");
    reveal_strlit(".");
    reveal_strlit("..");
    assert("/"@ =~= seq!['/']);
    assert("."@ =~= seq!['.']);
    assert(".."@ =~= seq!['.', '.']);
}

/// The pieces of joined plain names are the names; nothing joined is one empty piece.
proof fn lemma_pieces_of_joined(names: Seq<Seq<char>>)
    requires
        plain_names(names),
    ensures
        text::pieces(joined(names), '/') == (if names.len() == 0 {
            seq![Seq::<char>::empty()]
        } else {
            names
        }),
    decreases names.len(),
{
    lemma_dots();
    if names.len() == 1 {
        assert(plain_name(names[0]));
        text::lemma_pieces_single(names[0], '/');
        assert(names =~= seq![names[0]]);
    } else if names.len() > 1 {
        let front = names.drop_last();
        assert forall|i: int| 0 <= i < front.len() implies plain_name(#[trigger] front[i]) by {
            assert(plain_name(names[i]));
        }
        lemma_pieces_of_joined(front);
        assert(plain_name(names[names.len() - 1]));
        text::lemma_pieces_joined(joined(front), '/', names.last());
        text::lemma_pieces_single(names.last(), '/');
        assert(front + seq![names.last()] =~= names);
    }
}

/// Joined plain names do not start with a slash.
pub proof fn lemma_joined_start(names: Seq<Seq<char>>)
    requires
        plain_names(names),
        names.len() > 0,
    ensures
        joined(names).len() > 0,
        joined(names)[0] == names[0][0],
        joined(names)[0] != '/',
    decreases names.len(),
{
    assert(plain_name(names[0]));
    if names.len() > 1 {
        let front = names.drop_last();
        assert forall|i: int| 0 <= i < front.len() implies plain_name(#[trigger] front[i]) by {
            assert(plain_name(names[i]));
        }
        lemma_joined_start(front);
    }
}

/// A path that climbs to a parent directory anywhere is refused, wherever the climb stands
/// in it.
pub proof fn law_climbing_refused(before: Seq<char>, after: Seq<char>)
    requires
        before.len() == 0 || before.last() == '/',
        after.len() == 0 || after[0] == '/',
    ensures
        sanitized(before + ".."@ + after) is None,
{
    lemma_dots();
    text::lemma_pieces_single(".."@, '/');
    let up = ".."@;
    let head = before + up;
    let head_parts = text::pieces(head, '/');
    if before.len() > 0 {
        text::lemma_pieces_joined(before.drop_last(), '/', up);
        assert(before.drop_last() + seq!['/'] + up =~= head);
    } else {
        assert(head =~= up);
    }
    assert(head_parts.last() == up);
    let parts = text::pieces(head + after, '/');
    if after.len() > 0 {
        text::lemma_pieces_joined(head, '/', after.skip(1));
        assert(head + seq!['/'] + after.skip(1) =~= head + after);
    } else {
        assert(head + after =~= head);
    }
    assert(parts[head_parts.len() - 1] == up);
    assert(parts.contains(up));
}

/// A path that starts at the root of the file system is refused.
pub proof fn law_absolute_refused(path: Seq<char>)
    ensures
        sanitized("/"@ + path) is None,
{
    lemma_dots();
    assert(("/"@ + path)[0] == '/');
}

/// A path that is let through names nothing but plain entries: no name in it is empty, climbs
/// to a parent, or holds a separator.
pub proof fn law_sanitized_leads_down(path: Seq<char>)
    ensures
        sanitized(path) matches Some(names) ==> plain_names(names),
{
    lemma_sanitized_plain(path);
}

/// The text of a path that leads down is let through, and names the same entries.
pub proof fn law_sanitized_of_joined(names: Seq<Seq<char>>)
    requires
        plain_names(names),
    ensures
        sanitized(joined(names)) == Some(names),
{
    lemma_dots();
    lemma_pieces_of_joined(names);
    let keep = |piece: Seq<char>| names_entry(piece);
    let parts = text::pieces(joined(names), '/');
    if names.len() == 0 {
        lists::lemma_filter_none(parts, keep);
        assert(names =~= Seq::empty());
        assert(!parts.contains(".."@)) by {
            assert(forall|i: int| 0 <= i < parts.len() ==> parts[i].len() == 0);
        }
    } else {
        lemma_joined_start(names);
        assert forall|i: int| 0 <= i < parts.len() implies keep(#[trigger] parts[i]) && parts[i]
            != ".."@ by {
            assert(plain_name(names[i]));
        }
        lists::lemma_filter_all(parts, keep);
    }
}

/// Sanitizing what was sanitized changes nothing.
pub proof fn law_sanitized_idempotent(path: Seq<char>)
    ensures
        sanitized(path) matches Some(names) ==> sanitized(joined(names)) == Some(names),
{
    lemma_sanitized_plain(path);
    if let Some(names) = sanitized(path) {
        law_sanitized_of_joined(names);
    }
}

/// Two paths that lead down and read the same are the same.
pub proof fn law_joined_injective(a: Seq<Seq<char>>, b: Seq<Seq<char>>)
    requires
        plain_names(a),
        plain_names(b),
        joined(a) == joined(b),
    ensures
        a == b,
{
    law_sanitized_of_joined(a);
    law_sanitized_of_joined(b);
}

/// The file that a path which was let through stands for lies below the shared directory:
/// its full path continues the directory's, and never climbs after it.
pub proof fn law_stays_below(root: Seq<char>, path: Seq<char>)
    requires
        sanitized(path) is Some,
    ensures
        ({
            let full = joined_to(root, joined(sanitized(path)->0));
            &&& root.len() <= full.len()
            &&& full.take(root.len() as int) == root
            &&& !text::pieces(full.skip(root.len() as int), '/').contains(".."@)
        }),
{
    lemma_dots();
    lemma_sanitized_plain(path);
    let names = sanitized(path)->0;
    let tail = joined(names);
    let full = joined_to(root, tail);
    if names.len() > 0 {
        lemma_joined_start(names);
    }
    lemma_pieces_of_joined(names);
    let parts = text::pieces(tail, '/');
    assert forall|i: int| 0 <= i < parts.len() implies #[trigger] parts[i] != ".."@ by {
        if names.len() > 0 {
            assert(plain_name(names[i]));
        }
    }
    assert(full.take(root.len() as int) =~= root);
    let rest = full.skip(root.len() as int);
    if root.len() == 0 || root.last() == '/' {
        assert(rest =~= tail);
    } else {
        assert(rest =~= Seq::<char>::empty() + seq!['/'] + tail);
        text::lemma_pieces_joined(Seq::empty(), '/', tail);
        assert(text::pieces(rest, '/') =~= seq![Seq::<char>::empty()] + parts);
    }
}

/// A location that starts with a slash names the path after it.
pub proof fn law_normalized_rooted(path: Seq<char>)
    ensures
        normalized("/"@ + path) == Some(path),
{
    lemma_dots();
    assert(("/"@ + path).skip(1) =~= path);
}

/// Text without backslashes stays.
pub proof fn lemma_slashed_plain(s: Seq<char>)
    requires
        !text::has_char(s, '\\'),
    ensures
        slashed(s) == s,
{
    assert(slashed(s) =~= s);
}

/// Texts with their backslashes replaced, one behind the other.
pub proof fn lemma_slashed_concat(a: Seq<char>, b: Seq<char>)
    ensures
        slashed(a + b) == slashed(a) + slashed(b),
{
    assert(slashed(a + b) =~= slashed(a) + slashed(b));
}

/// A path that climbs to a parent directory anywhere is refused on Windows too, whichever of the
/// separators stand around the climb.
pub proof fn law_windows_climbing_refused(before: Seq<char>, after: Seq<char>)
    requires
        before.len() == 0 || is_separator(Platform::Windows, before.last()),
        after.len() == 0 || is_separator(Platform::Windows, after[0]),
    ensures
        windows_sanitized(before + ".."@ + after) is None,
{
    lemma_dots();
    lemma_slashed_concat(before, ".."@);
    lemma_slashed_concat(before + ".."@, after);
    assert(slashed(".."@) =~= ".."@);
    law_climbing_refused(slashed(before), slashed(after));
}

/// A path that starts with a separator is refused on Windows: it starts at the root of a drive,
/// at a share or at a device.
pub proof fn law_windows_absolute_refused(path: Seq<char>)
    requires
        path.len() > 0,
        is_separator(Platform::Windows, path[0]),
    ensures
        windows_sanitized(path) is None,
{
    assert(slashed(path)[0] == '/');
}

/// The pieces behind a separator are those of the text that stands there.
proof fn lemma_piece_behind(before: Seq<char>, rest: Seq<char>)
    requires
        before.len() == 0 || before.last() == '/',
    ensures
        text::pieces(before + rest, '/').len() >= text::pieces(rest, '/').len(),
        text::pieces(before + rest, '/')[text::pieces(before + rest, '/').len() - text::pieces(
            rest,
            '/',
        ).len()] == text::pieces(rest, '/')[0],
{
    text::lemma_pieces_nonempty(rest, '/');
    if before.len() == 0 {
        assert(before + rest =~= rest);
    } else {
        text::lemma_pieces_joined(before.drop_last(), '/', rest);
        assert(before.drop_last() + seq!['/'] + rest =~= before + rest);
    }
}

/// The first piece starts as the text does, up to the first separator.
proof fn lemma_first_piece(s: Seq<char>)
    requires
        s.len() >= 2,
        s[0] != '/',
        s[1] != '/',
    ensures
        text::pieces(s, '/')[0].len() >= 2,
        text::pieces(s, '/')[0][0] == s[0],
        text::pieces(s, '/')[0][1] == s[1],
    decreases s.len(),
{
    let front = s.drop_last();
    text::lemma_pieces_nonempty(front, '/');
    if s.len() == 2 {
        assert forall|i: int| 0 <= i < s.len() implies s[i] != '/' by {}
        text::lemma_pieces_single(s, '/');
    } else {
        lemma_first_piece(front);
        assert(front[0] == s[0] && front[1] == s[1]);
    }
}

/// A path that goes to a drive anywhere is refused on Windows.
pub proof fn law_windows_drive_refused(before: Seq<char>, drive: Seq<char>)
    requires
        before.len() == 0 || is_separator(Platform::Windows, before.last()),
        at_drive(drive),
    ensures
        windows_sanitized(before + drive) is None,
{
    let front = slashed(before);
    let rest = slashed(drive);
    let parts = text::pieces(front + rest, '/');
    lemma_slashed_concat(before, drive);
    lemma_first_piece(rest);
    lemma_piece_behind(front, rest);
    assert(at_drive(parts[parts.len() - text::pieces(rest, '/').len()]));
}

/// A path that is let through on Windows names nothing but plain entries: no name in it is empty,
/// climbs to a parent, goes to a drive, or holds one of the separators.
pub proof fn law_windows_sanitized_leads_down(path: Seq<char>)
    ensures
        windows_sanitized(path) matches Some(names) ==> windows_plain_names(names),
{
    lemma_windows_sanitized_plain(path);
}

/// A path without backslashes or drives is sanitized on Windows as it is elsewhere.
pub proof fn law_windows_agrees(path: Seq<char>)
    requires
        !text::has_char(path, '\\'),
        !has_drive(text::pieces(path, '/')),
    ensures
        windows_sanitized(path) == sanitized(path),
{
    lemma_slashed_plain(path);
}

/// Names that are plain on Windows are plain.
proof fn lemma_windows_plain(names: Seq<Seq<char>>)
    requires
        windows_plain_names(names),
    ensures
        plain_names(names),
        !has_drive(names),
{
    assert forall|i: int| 0 <= i < names.len() implies plain_name(#[trigger] names[i])
        && !at_drive(names[i]) by {
        assert(windows_plain_name(names[i]));
    }
}

/// A path that leads down to names plain on Windows, once its backslashes are replaced, leads
/// down there.
pub proof fn lemma_windows_leads_down(path: Seq<char>, names: Seq<Seq<char>>)
    requires
        sanitized(slashed(path)) == Some(names),
        windows_plain_names(names),
    ensures
        windows_sanitized(path) == Some(names),
{
    lemma_windows_plain(names);
    lemma_drives_are_names(slashed(path));
}

/// The path as Windows shows it, with its backslashes replaced, is the path with slashes.
pub proof fn lemma_slashed_shown(platform: Platform, names: Seq<Seq<char>>)
    requires
        plain_names_on(platform, names),
    ensures
        platform == Platform::Unix ==> shown(platform, names) == joined(names),
        platform == Platform::Windows ==> slashed(shown(platform, names)) == joined(names),
    decreases names.len(),
{
    lemma_dots();
    reveal_strlit("\\");
    if platform == Platform::Windows {
        if names.len() == 0 {
            assert(slashed(shown(platform, names)) =~= Seq::<char>::empty());
        } else {
            let last = names.last();
            assert(plain_name_on(platform, names[names.len() - 1]));
            lemma_slashed_plain(last);
            if names.len() > 1 {
                let front = names.drop_last();
                assert forall|i: int| 0 <= i < front.len() implies plain_name_on(
                    platform,
                    #[trigger] front[i],
                ) by {
                    assert(front[i] == names[i]);
                }
                lemma_slashed_shown(platform, front);
                let text = joined_by(front, "\\"@);
                lemma_slashed_concat(text, "\\"@);
                lemma_slashed_concat(text + "\\"@, last);
                assert(slashed("\\"@) =~= "/"@);
            }
        }
    }
}

/// The text of a path that leads down, as the platform shows it, is let through there, and names
/// the same entries.
pub proof fn law_sanitized_of_shown(platform: Platform, names: Seq<Seq<char>>)
    requires
        plain_names_on(platform, names),
    ensures
        sanitized_on(platform, shown(platform, names)) == Some(names),
{
    lemma_slashed_shown(platform, names);
    lemma_plain_on(platform, names);
    law_sanitized_of_joined(names);
    if platform == Platform::Windows {
        lemma_windows_leads_down(shown(platform, names), names);
    }
}

/// Names that are plain by a platform's rules are plain.
pub proof fn lemma_plain_on(platform: Platform, names: Seq<Seq<char>>)
    requires
        plain_names_on(platform, names),
    ensures
        plain_names(names),
        platform == Platform::Windows ==> windows_plain_names(names),
{
    assert forall|i: int| 0 <= i < names.len() implies plain_name(#[trigger] names[i]) by {
        assert(plain_name_on(platform, names[i]));
    }
    if platform == Platform::Windows {
        assert forall|i: int| 0 <= i < names.len() implies windows_plain_name(
            #[trigger] names[i],
        ) by {
            assert(plain_name_on(platform, names[i]));
        }
    }
}

/// A path that is let through names nothing but entries that are plain by the platform's rules.
pub proof fn law_sanitized_on_leads_down(platform: Platform, path: Seq<char>)
    ensures
        sanitized_on(platform, path) matches Some(names) ==> plain_names_on(platform, names),
{
    lemma_sanitized_plain(path);
    lemma_windows_sanitized_plain(path);
}

/// What stands for a path that was let through on Windows leads down from wherever it is
/// appended: it starts neither with a separator nor at a drive, and climbs nowhere.
pub proof fn law_windows_stays_below(path: Seq<char>)
    requires
        windows_sanitized(path) is Some,
    ensures
        ({
            let tail = shown(Platform::Windows, windows_sanitized(path)->0);
            &&& tail.len() > 0 ==> !is_separator(Platform::Windows, tail[0])
            &&& !at_drive(tail)
            &&& !text::pieces(slashed(tail), '/').contains(".."@)
        }),
{
    let names = windows_sanitized(path)->0;
    let tail = shown(Platform::Windows, names);
    law_sanitized_on_leads_down(Platform::Windows, path);
    law_sanitized_of_shown(Platform::Windows, names);
    if tail.len() > 0 && is_separator(Platform::Windows, tail[0]) {
        law_windows_absolute_refused(tail);
    }
    if at_drive(tail) {
        law_windows_drive_refused(Seq::empty(), tail);
        assert(Seq::<char>::empty() + tail =~= tail);
    }
}

/// What one more piece makes of the names so far: two dots spoil the path, nothing and one dot
/// change nothing, and anything else is one more name.
pub open spec fn one_more(names: Option<Seq<Seq<char>>>, piece: Seq<char>) -> Option<
    Seq<Seq<char>>,
> {
    match names {
        None => None,
        Some(n) => if piece == seq!['.', '.'] {
            None
        } else if piece.len() == 0 || piece == seq!['.'] {
            Some(n)
        } else {
            Some(n.push(piece))
        },
    }
}

/// A path is followed piece by piece from the left, and from nowhere: any piece that is neither
/// empty nor one or two dots is a name, whole and in its place.
pub proof fn law_sanitized_piece_by_piece(path: Seq<char>, piece: Seq<char>)
    requires
        forall|i: int| 0 <= i < piece.len() ==> piece[i] != '/',
    ensures
        sanitized(piece) == one_more(Some(Seq::empty()), piece),
        path.len() > 0 ==> sanitized(path + seq!['/'] + piece) == one_more(sanitized(path), piece),
        path.len() == 0 ==> sanitized(path + seq!['/'] + piece) is None,
{
    lemma_dots();
    let keep = |piece: Seq<char>| names_entry(piece);
    let none = Seq::<Seq<char>>::empty();
    text::lemma_pieces_single(piece, '/');
    lists::lemma_filter_none(none, keep);
    lists::lemma_filter_push(none, piece, keep);
    assert(none.push(piece) =~= seq![piece]);
    lemma_contains_push(none, piece);
    let whole = path + seq!['/'] + piece;
    let parts = text::pieces(path, '/');
    text::lemma_pieces_joined(path, '/', piece);
    assert(text::pieces(whole, '/') =~= parts.push(piece));
    lists::lemma_filter_push(parts, piece, keep);
    lemma_contains_push(parts, piece);
    if path.len() > 0 {
        assert(whole[0] == path[0]);
    } else {
        assert(whole[0] == '/');
    }
}

/// What a sequence with one more element holds.
proof fn lemma_contains_push(parts: Seq<Seq<char>>, piece: Seq<char>)
    ensures
        forall|x: Seq<char>| #[trigger] parts.push(piece).contains(x) <==> parts.contains(x) || x
            == piece,
{
    let more = parts.push(piece);
    assert forall|x: Seq<char>| #[trigger] more.contains(x) <==> parts.contains(x) || x
        == piece by {
        if parts.contains(x) {
            let i = choose|i: int| 0 <= i < parts.len() && parts[i] == x;
            assert(more[i] == x);
        }
        if x == piece {
            assert(more[parts.len() as int] == x);
        }
        if more.contains(x) {
            let i = choose|i: int| 0 <= i < more.len() && more[i] == x;
            if i < parts.len() {
                assert(parts[i] == x);
            }
        }
    }
}

/// On Windows a path is followed in the same way, with slashes and backslashes alike between the
/// pieces, but for pieces that start with an ASCII letter and a colon, which spoil it.
pub proof fn law_windows_sanitized_piece_by_piece(path: Seq<char>, c: char, piece: Seq<char>)
    requires
        c == '/' || c == '\\',
        forall|i: int| 0 <= i < piece.len() ==> piece[i] != '/' && piece[i] != '\\',
    ensures
        ({
            let drive = piece.len() >= 2 && piece[1] == ':' && (65 <= piece[0] as int <= 90 || 97
                <= piece[0] as int <= 122);
            &&& windows_sanitized(piece) == (if drive {
                None
            } else {
                one_more(Some(Seq::empty()), piece)
            })
            &&& path.len() > 0 ==> windows_sanitized(path + seq![c] + piece) == (if drive {
                None
            } else {
                one_more(windows_sanitized(path), piece)
            })
            &&& path.len() == 0 ==> windows_sanitized(path + seq![c] + piece) is None
        }),
{
    let whole = path + seq![c] + piece;
    let plain = slashed(path);
    assert(slashed(piece) =~= piece);
    assert(slashed(whole) =~= plain + seq!['/'] + piece);
    law_sanitized_piece_by_piece(plain, piece);
    text::lemma_pieces_single(piece, '/');
    text::lemma_pieces_joined(plain, '/', piece);
    let parts = text::pieces(plain, '/');
    let more = text::pieces(slashed(whole), '/');
    assert(more =~= parts.push(piece));
    assert(has_drive(more) <==> has_drive(parts) || at_drive(piece)) by {
        if has_drive(parts) {
            let i = choose|i: int| 0 <= i < parts.len() && at_drive(#[trigger] parts[i]);
            assert(at_drive(more[i]));
        }
        if at_drive(piece) {
            assert(at_drive(more[parts.len() as int]));
        }
        if has_drive(more) {
            let i = choose|i: int| 0 <= i < more.len() && at_drive(#[trigger] more[i]);
            if i < parts.len() {
                assert(at_drive(parts[i]));
            }
        }
    }
    assert(has_drive(seq![piece]) <==> at_drive(piece)) by {
        assert(seq![piece][0] == piece);
    }
}

/// A location names the path behind its slash; an empty one names the shared directory, and one
/// that starts with anything else names nothing.
pub proof fn law_normalized_exactly(c: char, path: Seq<char>)
    ensures
        normalized(Seq::empty()) == Some(Seq::<char>::empty()),
        normalized(seq![c] + path) == (if c == '/' {
            Some(path)
        } else {
            None
        }),
{
    assert((seq![c] + path).skip(1) =~= path);
}

/// A path is shown name by name, whole, with a slash between each and the next, or on Windows
/// with a backslash.
pub proof fn law_shown_name_by_name(platform: Platform, names: Seq<Seq<char>>, name: Seq<char>)
    ensures
        shown(platform, Seq::empty()) == Seq::<char>::empty(),
        shown(platform, seq![name]) == name,
        names.len() > 0 ==> shown(platform, names.push(name)) == shown(platform, names).push(
            if platform == Platform::Windows {
                '\\'
            } else {
                '/'
            },
        ) + name,
        joined(names) == shown(Platform::Unix, names),
{
    lemma_dots();
    reveal_strlit("\\");
    assert(names.push(name).drop_last() =~= names);
    if names.len() > 0 {
        assert(shown(platform, names.push(name)) =~= shown(platform, names).push(
            if platform == Platform::Windows {
                '\\'
            } else {
                '/'
            },
        ) + name);
    }
}

/// A path is appended to a directory's with one slash between them, unless it starts with one
/// itself: then it stands alone.
pub proof fn law_joined_to_exactly(base: Seq<char>, c: char, tail: Seq<char>)
    ensures
        c == '/' ==> joined_to(base, seq![c] + tail) == seq![c] + tail,
        c != '/' ==> joined_to(base.push('/'), seq![c] + tail) == base.push('/') + (seq![c] + tail),
        c != '/' && base.len() > 0 && base.last() != '/' ==> joined_to(base, seq![c] + tail)
            == base.push('/') + (seq![c] + tail),
        base.len() > 0 && base.last() != '/' ==> joined_to(base, Seq::empty()) == base.push('/'),
        joined_to(Seq::empty(), seq![c] + tail) == seq![c] + tail,
{
    lemma_dots();
    let whole = seq![c] + tail;
    assert(whole[0] == c);
    assert(base + "/"@ + whole =~= base.push('/') + whole);
    assert(base + "/"@ + Seq::<char>::empty() =~= base.push('/'));
    assert(Seq::<char>::empty() + whole =~= whole);
}

} // verus!
