//! What templates made of text and placeholders are rendered to.
use vstd::prelude::*;

use crate::html;
use crate::template;
use crate::text;

verus! {

// ---------------------------------------------------------------------------
// Templates in parts
// ---------------------------------------------------------------------------
/// A part of a template.
pub enum Part {
    /// Text that stays.
    Text(Seq<char>),
    /// The place of a value made safe for HTML: `{{key}}`.
    Safe(Seq<char>),
    /// The place of a value as it is: `{{{key}}}`.
    Raw(Seq<char>),
}

/// The text holds no braces.
pub open spec fn no_braces(s: Seq<char>) -> bool {
    forall|i: int| 0 <= i < s.len() ==> (#[trigger] s[i]) != '{' && s[i] != '}'
}

/// The text holds no opening braces.
pub open spec fn no_opening(s: Seq<char>) -> bool {
    forall|i: int| 0 <= i < s.len() ==> (#[trigger] s[i]) != '{'
}

/// A part without braces but for those around its key, and for closing ones in text.
pub open spec fn plain_part(part: Part) -> bool {
    match part {
        Part::Text(s) => no_opening(s),
        Part::Safe(key) => no_braces(key),
        Part::Raw(key) => no_braces(key),
    }
}

/// All of the parts are plain.
pub open spec fn plain_parts(parts: Seq<Part>) -> bool {
    forall|i: int| 0 <= i < parts.len() ==> plain_part(#[trigger] parts[i])
}

/// How a part stands in a template.
pub open spec fn part_text(part: Part) -> Seq<char> {
    match part {
        Part::Text(s) => s,
        Part::Safe(key) => seq!['{', '{'] + key + seq!['}', '}'],
        Part::Raw(key) => seq!['{', '{', '{'] + key + seq!['}', '}', '}'],
    }
}

/// The template made of the parts.
pub open spec fn written(parts: Seq<Part>) -> Seq<char>
    decreases parts.len(),
{
    if parts.len() == 0 {
        Seq::empty()
    } else {
        part_text(parts[0]) + written(parts.skip(1))
    }
}

/// None of the parts is the place of a value of `key`.
pub open spec fn lacks(parts: Seq<Part>, key: Seq<char>) -> bool {
    forall|i: int|
        0 <= i < parts.len() ==> (#[trigger] parts[i]) != Part::Safe(key) && parts[i] != Part::Raw(
            key,
        )
}

/// The parts of two templates, one behind the other.
pub proof fn lemma_written_concat(a: Seq<Part>, b: Seq<Part>)
    ensures
        written(a + b) == written(a) + written(b),
    decreases a.len(),
{
    if a.len() == 0 {
        assert(a + b =~= b);
        assert(written(a) + written(b) =~= written(b));
    } else {
        lemma_written_concat(a.skip(1), b);
        assert((a + b).skip(1) =~= a.skip(1) + b);
        assert(written(a + b) =~= written(a) + written(b));
    }
}

// ---------------------------------------------------------------------------
// Where placeholders stand
// ---------------------------------------------------------------------------
proof fn lemma_braces()
    ensures
        "{{"@ == seq!['{', '{'],
        "}}"@ == seq!['}', '}'],
        "{{{"@ == seq!['{', '{', '{'],
        "}}}"@ == seq!['}', '}', '}'],
{
    reveal_strlit("{{");
    reveal_strlit("}}");
    reveal_strlit("{{{");
    reveal_strlit("}}}");
    assert("{{"@ =~= seq!['{', '{']);
    assert("}}"@ =~= seq!['}', '}']);
    assert("{{{"@ =~= seq!['{', '{', '{']);
    assert("}}}"@ =~= seq!['}', '}', '}']);
}

/// `key` stands in `s` at `at`, and a closing brace behind it.
spec fn key_at(s: Seq<char>, at: int, key: Seq<char>) -> bool {
    &&& 0 <= at
    &&& at + key.len() < s.len()
    &&& s.subrange(at, at + key.len()) == key
    &&& s[at + key.len()] == '}'
}

/// The characters at a place where a placeholder stands.
proof fn lemma_token_at(s: Seq<char>, key: Seq<char>, q: int)
    requires
        text::occurs_at(s, template::token(key), q),
    ensures
        s[q] == '{',
        s[q + 1] == '{',
        key_at(s, q + 2, key),
{
    lemma_braces();
    let t = template::token(key);
    let found = s.subrange(q, q + t.len());
    assert(found[0] == s[q] && found[1] == s[q + 1]);
    assert(found[2 + key.len() as int] == s[q + 2 + key.len()]);
    assert(s.subrange(q + 2, q + 2 + key.len()) =~= t.subrange(2, 2 + key.len() as int));
    assert(t.subrange(2, 2 + key.len() as int) =~= key);
}

/// The characters at a place where a raw placeholder stands.
proof fn lemma_raw_token_at(s: Seq<char>, key: Seq<char>, q: int)
    requires
        text::occurs_at(s, template::raw_token(key), q),
    ensures
        s[q] == '{',
        s[q + 1] == '{',
        s[q + 2] == '{',
        key_at(s, q + 3, key),
{
    lemma_braces();
    let t = template::raw_token(key);
    let found = s.subrange(q, q + t.len());
    assert(found[0] == s[q] && found[1] == s[q + 1] && found[2] == s[q + 2]);
    assert(found[3 + key.len() as int] == s[q + 3 + key.len()]);
    assert(s.subrange(q + 3, q + 3 + key.len()) =~= t.subrange(3, 3 + key.len() as int));
    assert(t.subrange(3, 3 + key.len() as int) =~= key);
}

/// Two keys without braces at the same place are the same.
proof fn lemma_same_key(s: Seq<char>, at: int, key: Seq<char>, other: Seq<char>)
    requires
        no_braces(key),
        no_braces(other),
        key_at(s, at, key),
        key_at(s, at, other),
    ensures
        key == other,
{
    if key.len() < other.len() {
        assert(s.subrange(at, at + other.len())[key.len() as int] == s[at + key.len()]);
    }
    if other.len() < key.len() {
        assert(s.subrange(at, at + key.len())[other.len() as int] == s[at + other.len()]);
    }
}

/// From where a key without braces stands to the brace behind it, there is no opening brace.
proof fn lemma_no_brace_in_key(s: Seq<char>, at: int, key: Seq<char>, q: int)
    requires
        no_braces(key),
        key_at(s, at, key),
        at <= q <= at + key.len(),
    ensures
        s[q] != '{',
{
    if q < at + key.len() {
        assert(s.subrange(at, at + key.len())[q - at] == s[q]);
    }
}

/// A placeholder as it stands in front of other text.
proof fn lemma_safe_part(key: Seq<char>, rest: Seq<char>)
    ensures
        ({
            let s = template::token(key) + rest;
            &&& s[0] == '{'
            &&& s[1] == '{'
            &&& key_at(s, 2, key)
            &&& s[3 + key.len() as int] == '}'
            &&& template::token(key).len() == key.len() + 4
        }),
{
    lemma_braces();
    let s = template::token(key) + rest;
    assert(s.subrange(2, 2 + key.len() as int) =~= key);
}

/// A raw placeholder as it stands in front of other text.
proof fn lemma_raw_part(key: Seq<char>, rest: Seq<char>)
    ensures
        ({
            let s = template::raw_token(key) + rest;
            &&& s[0] == '{'
            &&& s[1] == '{'
            &&& s[2] == '{'
            &&& key_at(s, 3, key)
            &&& s[4 + key.len() as int] == '}'
            &&& s[5 + key.len() as int] == '}'
            &&& template::raw_token(key).len() == key.len() + 6
        }),
{
    lemma_braces();
    let s = template::raw_token(key) + rest;
    assert(s.subrange(3, 3 + key.len() as int) =~= key);
}

/// No placeholder of `key` starts in a part that is not one.
proof fn lemma_no_token_in_part(part: Part, rest: Seq<char>, key: Seq<char>)
    requires
        plain_part(part),
        no_braces(key),
        part != Part::Safe(key),
        part != Part::Raw(key),
    ensures
        forall|q: int|
            0 <= q < part_text(part).len() ==> !(#[trigger] text::occurs_at(
                part_text(part) + rest,
                template::token(key),
                q,
            )),
{
    lemma_braces();
    let own = part_text(part);
    let s = own + rest;
    assert forall|q: int| 0 <= q < own.len() implies !(#[trigger] text::occurs_at(
        s,
        template::token(key),
        q,
    )) by {
        if text::occurs_at(s, template::token(key), q) {
            lemma_token_at(s, key, q);
            match part {
                Part::Text(t) => {
                    assert(s[q] == t[q]);
                },
                Part::Safe(other) => {
                    lemma_safe_part(other, rest);
                    if q == 0 {
                        lemma_same_key(s, 2, key, other);
                    } else if q == 1 {
                        lemma_no_brace_in_key(s, 2, other, 2);
                    } else if q <= 2 + other.len() {
                        lemma_no_brace_in_key(s, 2, other, q);
                    }
                },
                Part::Raw(other) => {
                    lemma_raw_part(other, rest);
                    if q == 0 {
                        lemma_no_brace_in_key(s, 2, key, 2);
                    } else if q == 1 {
                        lemma_same_key(s, 3, key, other);
                    } else if q == 2 {
                        lemma_no_brace_in_key(s, 3, other, 3);
                    } else if q <= 3 + other.len() {
                        lemma_no_brace_in_key(s, 3, other, q);
                    }
                },
            }
        }
    }
}

/// No raw placeholder of `key` starts in a part that is not one.
proof fn lemma_no_raw_token_in_part(part: Part, rest: Seq<char>, key: Seq<char>)
    requires
        plain_part(part),
        no_braces(key),
        part != Part::Raw(key),
    ensures
        forall|q: int|
            0 <= q < part_text(part).len() ==> !(#[trigger] text::occurs_at(
                part_text(part) + rest,
                template::raw_token(key),
                q,
            )),
{
    lemma_braces();
    let own = part_text(part);
    let s = own + rest;
    assert forall|q: int| 0 <= q < own.len() implies !(#[trigger] text::occurs_at(
        s,
        template::raw_token(key),
        q,
    )) by {
        if text::occurs_at(s, template::raw_token(key), q) {
            lemma_raw_token_at(s, key, q);
            match part {
                Part::Text(t) => {
                    assert(s[q] == t[q]);
                },
                Part::Safe(other) => {
                    lemma_safe_part(other, rest);
                    if q <= 1 {
                        lemma_no_brace_in_key(s, 2, other, 2);
                    } else if q <= 2 + other.len() {
                        lemma_no_brace_in_key(s, 2, other, q);
                    }
                },
                Part::Raw(other) => {
                    lemma_raw_part(other, rest);
                    if q == 0 {
                        lemma_same_key(s, 3, key, other);
                    } else if q <= 2 {
                        lemma_no_brace_in_key(s, 3, other, 3);
                    } else if q <= 3 + other.len() {
                        lemma_no_brace_in_key(s, 3, other, q);
                    }
                },
            }
        }
    }
}

// ---------------------------------------------------------------------------
// Putting values in
// ---------------------------------------------------------------------------
/// The part, if it is the place of a raw value of `key`, with the value in it.
pub open spec fn with_raw(part: Part, key: Seq<char>, value: Seq<char>) -> Part {
    if part == Part::Raw(key) {
        Part::Text(value)
    } else {
        part
    }
}

/// The part, if it is the place of a safe value of `key`, with the value in it.
pub open spec fn with_safe(part: Part, key: Seq<char>, value: Seq<char>) -> Part {
    if part == Part::Safe(key) {
        Part::Text(html::escaped(value))
    } else {
        part
    }
}

proof fn lemma_with_raw(parts: Seq<Part>, key: Seq<char>, value: Seq<char>)
    requires
        plain_parts(parts),
        no_braces(key),
    ensures
        text::replace_all(written(parts), template::raw_token(key), value) == written(
            parts.map_values(|part: Part| with_raw(part, key, value)),
        ),
    decreases parts.len(),
{
    lemma_braces();
    let done = parts.map_values(|part: Part| with_raw(part, key, value));
    let from = template::raw_token(key);
    if parts.len() == 0 {
        assert(!text::occurs(written(parts), from));
        text::law_replace_absent(written(parts), from, value);
    } else {
        let part = parts[0];
        let rest = parts.skip(1);
        assert(plain_part(part));
        assert(plain_parts(rest)) by {
            assert forall|i: int| 0 <= i < rest.len() implies plain_part(#[trigger] rest[i]) by {
                assert(rest[i] == parts[i + 1]);
            }
        }
        lemma_with_raw(rest, key, value);
        assert(done.skip(1) =~= rest.map_values(|part: Part| with_raw(part, key, value)));
        if part == Part::Raw(key) {
            text::law_replace_front(written(rest), from, value);
        } else {
            lemma_no_raw_token_in_part(part, written(rest), key);
            text::law_replace_behind(part_text(part), written(rest), from, value);
        }
    }
}

proof fn lemma_with_safe(parts: Seq<Part>, key: Seq<char>, value: Seq<char>)
    requires
        plain_parts(parts),
        no_braces(key),
        forall|i: int| 0 <= i < parts.len() ==> #[trigger] parts[i] != Part::Raw(key),
    ensures
        text::replace_all(written(parts), template::token(key), html::escaped(value)) == written(
            parts.map_values(|part: Part| with_safe(part, key, value)),
        ),
    decreases parts.len(),
{
    lemma_braces();
    let done = parts.map_values(|part: Part| with_safe(part, key, value));
    let from = template::token(key);
    let to = html::escaped(value);
    if parts.len() == 0 {
        assert(!text::occurs(written(parts), from));
        text::law_replace_absent(written(parts), from, to);
    } else {
        let part = parts[0];
        let rest = parts.skip(1);
        assert(plain_part(part) && part != Part::Raw(key));
        assert forall|i: int| 0 <= i < rest.len() implies plain_part(#[trigger] rest[i]) && rest[i]
            != Part::Raw(key) by {
            assert(rest[i] == parts[i + 1]);
        }
        lemma_with_safe(rest, key, value);
        assert(done.skip(1) =~= rest.map_values(|part: Part| with_safe(part, key, value)));
        if part == Part::Safe(key) {
            text::law_replace_front(written(rest), from, to);
        } else {
            lemma_no_token_in_part(part, written(rest), key);
            text::law_replace_behind(part_text(part), written(rest), from, to);
        }
    }
}

/// Escaping adds no opening braces.
proof fn lemma_escaped_no_opening(s: Seq<char>)
    requires
        no_opening(s),
    ensures
        no_opening(html::escaped(s)),
    decreases s.len(),
{
    reveal_strlit("&amp;");
    reveal_strlit("&lt;");
    reveal_strlit("&gt;");
    reveal_strlit("&quot;");
    reveal_strlit("&#39;");
    if s.len() > 0 {
        let front = s.drop_last();
        assert forall|i: int| 0 <= i < front.len() implies (#[trigger] front[i]) != '{' by {
            assert(front[i] == s[i]);
        }
        lemma_escaped_no_opening(front);
        assert(s[s.len() - 1] != '{');
        let a = html::escaped(front);
        let b = html::escaped_char(s.last());
        assert forall|i: int| 0 <= i < html::escaped(s).len() implies (#[trigger] html::escaped(
            s,
        )[i]) != '{' by {
            if i < a.len() {
                assert(html::escaped(s)[i] == a[i]);
            } else {
                assert(html::escaped(s)[i] == b[i - a.len()]);
            }
        }
    }
}

/// The part with the value of `key` in it, if it is the place of one.
pub open spec fn with_value(part: Part, key: Seq<char>, value: Seq<char>) -> Part {
    with_safe(with_raw(part, key, value), key, value)
}

/// Putting a value into a template is putting it into each of its parts.
proof fn lemma_with_value(parts: Seq<Part>, key: Seq<char>, value: Seq<char>)
    requires
        plain_parts(parts),
        no_braces(key),
        no_opening(value),
    ensures
        template::with_value(written(parts), key, value) == written(
            parts.map_values(|part: Part| with_value(part, key, value)),
        ),
        plain_parts(parts.map_values(|part: Part| with_value(part, key, value))),
{
    let raw = parts.map_values(|part: Part| with_raw(part, key, value));
    let done = parts.map_values(|part: Part| with_value(part, key, value));
    lemma_with_raw(parts, key, value);
    assert forall|i: int| 0 <= i < raw.len() implies plain_part(#[trigger] raw[i]) && raw[i]
        != Part::Raw(key) by {
        assert(plain_part(parts[i]));
    }
    lemma_with_safe(raw, key, value);
    assert(raw.map_values(|part: Part| with_safe(part, key, value)) =~= done);
    lemma_escaped_no_opening(value);
    assert forall|i: int| 0 <= i < done.len() implies plain_part(#[trigger] done[i]) by {
        assert(plain_part(parts[i]));
    }
}

/// Keys without braces, each of them once, and values without opening braces.
pub open spec fn plain_bindings(vars: template::Bindings) -> bool {
    &&& template::distinct_keys(vars)
    &&& forall|i: int|
        0 <= i < vars.len() ==> no_braces((#[trigger] vars[i]).0) && no_opening(vars[i].1)
}

/// The value that a key is bound to.
pub open spec fn value_of(vars: template::Bindings, key: Seq<char>) -> Option<Seq<char>> {
    if template::has_key(vars, key) {
        Some(vars[choose|i: int| 0 <= i < vars.len() && (#[trigger] vars[i]).0 == key].1)
    } else {
        None
    }
}

/// The part with its value in it, if it is the place of a value of one of the keys.
pub open spec fn resolved(part: Part, vars: template::Bindings) -> Part {
    match part {
        Part::Text(s) => part,
        Part::Safe(key) => match value_of(vars, key) {
            Some(value) => Part::Text(html::escaped(value)),
            None => part,
        },
        Part::Raw(key) => match value_of(vars, key) {
            Some(value) => Part::Text(value),
            None => part,
        },
    }
}

/// The parts with their values in them.
pub open spec fn filled(parts: Seq<Part>, vars: template::Bindings) -> Seq<Part> {
    parts.map_values(|part: Part| resolved(part, vars))
}

/// A key is bound to one value only.
proof fn lemma_value_of(vars: template::Bindings, key: Seq<char>, i: int)
    requires
        template::distinct_keys(vars),
        0 <= i < vars.len(),
        vars[i].0 == key,
    ensures
        value_of(vars, key) == Some(vars[i].1),
{
    let k = choose|k: int| 0 <= k < vars.len() && (#[trigger] vars[k]).0 == key;
    if k < i {
        assert(vars[k].0 != vars[i].0);
    }
    if i < k {
        assert(vars[i].0 != vars[k].0);
    }
}

/// Putting the values of all keys in is putting the last one in after the others.
proof fn lemma_resolved_last(part: Part, vars: template::Bindings)
    requires
        template::distinct_keys(vars),
        vars.len() > 0,
    ensures
        resolved(part, vars) == with_value(
            resolved(part, vars.drop_last()),
            vars.last().0,
            vars.last().1,
        ),
{
    let front = vars.drop_last();
    let n = vars.len() - 1;
    assert(template::distinct_keys(front)) by {
        assert forall|i: int, j: int| 0 <= i < j < front.len() implies (#[trigger] front[i]).0 != (
        #[trigger] front[j]).0 by {
            assert(vars[i].0 != vars[j].0);
        }
    }
    assert forall|key: Seq<char>| #[trigger] value_of(vars, key) == (if key == vars.last().0 {
        Some(vars.last().1)
    } else {
        value_of(front, key)
    }) by {
        if key == vars.last().0 {
            lemma_value_of(vars, key, n);
        } else if template::has_key(front, key) {
            let i = choose|i: int| 0 <= i < front.len() && (#[trigger] front[i]).0 == key;
            assert(vars[i] == front[i]);
            lemma_value_of(vars, key, i);
            lemma_value_of(front, key, i);
        } else {
            assert forall|i: int| 0 <= i < vars.len() implies (#[trigger] vars[i]).0 != key by {
                if i < n {
                    assert(front[i] == vars[i]);
                }
            }
        }
    }
    assert(!template::has_key(front, vars.last().0)) by {
        assert forall|i: int| 0 <= i < front.len() implies (#[trigger] front[i]).0
            != vars.last().0 by {
            assert(vars[i].0 != vars[n].0);
        }
    }
}

// ---------------------------------------------------------------------------
// Laws of values
// ---------------------------------------------------------------------------
/// A template is rendered part by part: text stays, and each placeholder of a bound key is
/// replaced by the key's value.
pub proof fn law_values_put_in(parts: Seq<Part>, vars: template::Bindings)
    requires
        plain_parts(parts),
        plain_bindings(vars),
    ensures
        template::with_values(written(parts), vars) == written(filled(parts, vars)),
        plain_parts(filled(parts, vars)),
    decreases vars.len(),
{
    if vars.len() == 0 {
        assert(filled(parts, vars) =~= parts);
    } else {
        let front = vars.drop_last();
        let last = vars.last();
        assert(no_braces(vars[vars.len() - 1].0) && no_opening(vars[vars.len() - 1].1));
        assert(plain_bindings(front)) by {
            assert forall|i: int, j: int| 0 <= i < j < front.len() implies (#[trigger] front[i]).0
                != (#[trigger] front[j]).0 by {
                assert(vars[i].0 != vars[j].0);
            }
            assert forall|i: int| 0 <= i < front.len() implies no_braces((#[trigger] front[i]).0)
                && no_opening(front[i].1) by {
                assert(front[i] == vars[i]);
            }
        }
        law_values_put_in(parts, front);
        let before = filled(parts, front);
        lemma_with_value(before, last.0, last.1);
        assert forall|i: int| 0 <= i < parts.len() implies #[trigger] filled(parts, vars)[i]
            == with_value(before[i], last.0, last.1) by {
            lemma_resolved_last(parts[i], vars);
        }
        assert(filled(parts, vars) =~= before.map_values(
            |part: Part| with_value(part, last.0, last.1),
        ));
    }
}

/// The order in which values are put in does not matter.
pub proof fn law_order_of_values(
    parts: Seq<Part>,
    a: template::Bindings,
    b: template::Bindings,
)
    requires
        plain_parts(parts),
        plain_bindings(a),
        plain_bindings(b),
        forall|e: (Seq<char>, Seq<char>)| #[trigger] a.contains(e) <==> b.contains(e),
    ensures
        template::with_values(written(parts), a) == template::with_values(written(parts), b),
{
    law_values_put_in(parts, a);
    law_values_put_in(parts, b);
    assert forall|key: Seq<char>| #[trigger] value_of(a, key) == value_of(b, key) by {
        if template::has_key(a, key) {
            let i = choose|i: int| 0 <= i < a.len() && (#[trigger] a[i]).0 == key;
            assert(a.contains(a[i]));
            assert(b.contains(a[i]));
            let j = choose|j: int| 0 <= j < b.len() && b[j] == a[i];
            lemma_value_of(a, key, i);
            lemma_value_of(b, key, j);
        } else if template::has_key(b, key) {
            let j = choose|j: int| 0 <= j < b.len() && (#[trigger] b[j]).0 == key;
            assert(b.contains(b[j]));
            assert(a.contains(b[j]));
            let i = choose|i: int| 0 <= i < a.len() && a[i] == b[j];
            assert(a[i].0 == key);
        }
    }
    assert(filled(parts, a) =~= filled(parts, b));
}

// ---------------------------------------------------------------------------
// Sections
// ---------------------------------------------------------------------------
/// What opens a section, as a placeholder's key.
pub open spec fn start_key(name: Seq<char>) -> Seq<char> {
    "#"@ + name
}

/// What closes a section, as a placeholder's key.
pub open spec fn end_key(name: Seq<char>) -> Seq<char> {
    "/"@ + name
}

/// A template with one section.
pub open spec fn section_template(
    before: Seq<Part>,
    name: Seq<char>,
    block: Seq<Part>,
    after: Seq<Part>,
) -> Seq<char> {
    written(before) + (seq!['{', '{', '#'] + name + seq!['}', '}']) + written(block) + (seq![
        '{',
        '{',
        '/',
    ] + name + seq!['}', '}']) + written(after)
}

/// The parts that a block is repeated to.
pub open spec fn repeated_parts(block: Seq<Part>, rows: Seq<template::Bindings>) -> Seq<Part>
    decreases rows.len(),
{
    if rows.len() == 0 {
        Seq::empty()
    } else {
        repeated_parts(block, rows.drop_last()) + filled(block, rows.last())
    }
}

/// The bindings of all rows are plain.
pub open spec fn plain_rows(rows: Seq<template::Bindings>) -> bool {
    forall|i: int| 0 <= i < rows.len() ==> plain_bindings(#[trigger] rows[i])
}

/// The template can be a page with a section of that name: nothing else in it opens or closes
/// one.
pub open spec fn plain_section(
    before: Seq<Part>,
    name: Seq<char>,
    block: Seq<Part>,
    after: Seq<Part>,
) -> bool {
    &&& no_braces(name)
    &&& plain_parts(before)
    &&& plain_parts(block)
    &&& plain_parts(after)
    &&& lacks(before, start_key(name))
    &&& lacks(block, start_key(name))
    &&& lacks(after, start_key(name))
    &&& lacks(block, end_key(name))
}

proof fn lemma_tags(name: Seq<char>)
    requires
        no_braces(name),
    ensures
        template::start_tag(name) == template::token(start_key(name)),
        template::end_tag(name) == template::token(end_key(name)),
        template::start_tag(name) == seq!['{', '{', '#'] + name + seq!['}', '}'],
        template::end_tag(name) == seq!['{', '{', '/'] + name + seq!['}', '}'],
        no_braces(start_key(name)),
        no_braces(end_key(name)),
{
    lemma_braces();
    reveal_strlit("{{#");
    reveal_strlit("{{/");
    reveal_strlit("#");
    reveal_strlit("/");
    assert(template::start_tag(name) =~= template::token(start_key(name)));
    assert(template::end_tag(name) =~= template::token(end_key(name)));
    assert(template::start_tag(name) =~= seq!['{', '{', '#'] + name + seq!['}', '}']);
    assert(template::end_tag(name) =~= seq!['{', '{', '/'] + name + seq!['}', '}']);
    assert forall|i: int| 0 <= i < start_key(name).len() implies (#[trigger] start_key(name)[i])
        != '{' && start_key(name)[i] != '}' by {
        if i > 0 {
            assert(start_key(name)[i] == name[i - 1]);
        }
    }
    assert forall|i: int| 0 <= i < end_key(name).len() implies (#[trigger] end_key(name)[i])
        != '{' && end_key(name)[i] != '}' by {
        if i > 0 {
            assert(end_key(name)[i] == name[i - 1]);
        }
    }
}

/// No placeholder of `key` starts in parts that lack it.
proof fn lemma_no_token_in_parts(parts: Seq<Part>, rest: Seq<char>, key: Seq<char>)
    requires
        plain_parts(parts),
        no_braces(key),
        lacks(parts, key),
    ensures
        forall|q: int|
            0 <= q < written(parts).len() ==> !(#[trigger] text::occurs_at(
                written(parts) + rest,
                template::token(key),
                q,
            )),
    decreases parts.len(),
{
    if parts.len() > 0 {
        let more = parts.skip(1);
        let own = part_text(parts[0]);
        let behind = written(more) + rest;
        let s = written(parts) + rest;
        let t = template::token(key);
        assert(s =~= own + behind);
        assert(plain_part(parts[0]) && parts[0] != Part::Safe(key) && parts[0] != Part::Raw(key));
        assert forall|i: int| 0 <= i < more.len() implies plain_part(#[trigger] more[i]) && more[i]
            != Part::Safe(key) && more[i] != Part::Raw(key) by {
            assert(more[i] == parts[i + 1]);
        }
        lemma_no_token_in_part(parts[0], behind, key);
        lemma_no_token_in_parts(more, rest, key);
        assert forall|q: int| 0 <= q < written(parts).len() implies !(#[trigger] text::occurs_at(
            s,
            t,
            q,
        )) by {
            if text::occurs_at(s, t, q) && q >= own.len() {
                let p = q - own.len();
                assert(s.subrange(q, q + t.len()) =~= behind.subrange(p, p + t.len()));
                assert(text::occurs_at(behind, t, p));
            }
        }
    }
}

/// The first placeholder of `key` behind parts that lack it.
proof fn lemma_first_behind(parts: Seq<Part>, rest: Seq<char>, key: Seq<char>)
    requires
        plain_parts(parts),
        no_braces(key),
        lacks(parts, key),
    ensures
        text::find(written(parts) + template::token(key) + rest, template::token(key), 0) == Some(
            written(parts).len() as int,
        ),
{
    let t = template::token(key);
    let x = written(parts);
    let s = x + t + rest;
    lemma_no_token_in_parts(parts, t + rest, key);
    assert(s =~= x + (t + rest));
    assert(s.subrange(x.len() as int, (x.len() + t.len()) as int) =~= t);
    assert(text::is_first(s, t, 0, x.len() as int));
    text::lemma_find_is(s, t, 0, x.len() as int);
}

/// Parts that lack a placeholder still do when values are put in.
proof fn lemma_filled_lacks(parts: Seq<Part>, vars: template::Bindings, key: Seq<char>)
    requires
        lacks(parts, key),
    ensures
        lacks(filled(parts, vars), key),
{
    assert forall|i: int| 0 <= i < parts.len() implies (#[trigger] filled(parts, vars)[i])
        != Part::Safe(key) && filled(parts, vars)[i] != Part::Raw(key) by {
        assert(parts[i] != Part::Safe(key) && parts[i] != Part::Raw(key));
    }
}

/// What a block is repeated to.
proof fn lemma_repeated_parts(block: Seq<Part>, rows: Seq<template::Bindings>, key: Seq<char>)
    requires
        plain_parts(block),
        plain_rows(rows),
        lacks(block, key),
    ensures
        template::repeated(written(block), rows) == written(repeated_parts(block, rows)),
        plain_parts(repeated_parts(block, rows)),
        lacks(repeated_parts(block, rows), key),
    decreases rows.len(),
{
    if rows.len() > 0 {
        let front = rows.drop_last();
        let last = rows.last();
        assert(plain_bindings(rows[rows.len() - 1]));
        assert forall|i: int| 0 <= i < front.len() implies plain_bindings(#[trigger] front[i]) by {
            assert(front[i] == rows[i]);
        }
        lemma_repeated_parts(block, front, key);
        law_values_put_in(block, last);
        lemma_filled_lacks(block, last, key);
        lemma_written_concat(repeated_parts(block, front), filled(block, last));
    }
}

/// A page with one section is rendered part by part: the section's block once for each row,
/// with the row's values in it, and then the page's values in all that is there. Expanding the
/// section comes to an end.
pub proof fn law_page_rendered(
    before: Seq<Part>,
    name: Seq<char>,
    block: Seq<Part>,
    after: Seq<Part>,
    rows: Seq<template::Bindings>,
    vars: template::Bindings,
)
    requires
        plain_section(before, name, block, after),
        plain_rows(rows),
        plain_bindings(vars),
    ensures
        ({
            let page = section_template(before, name, block, after);
            let sections = seq![(name, rows)];
            &&& template::sections_end_within(page, sections, 1)
            &&& template::sections_end(page, sections)
            &&& template::with_values(template::with_sections(page, sections), vars) == written(
                filled(before + repeated_parts(block, rows) + after, vars),
            )
        }),
{
    lemma_tags(name);
    let a = written(before);
    let x = written(block);
    let b = written(after);
    let start = template::start_tag(name);
    let end = template::end_tag(name);
    let s = section_template(before, name, block, after);
    let inner = (a.len() + start.len()) as int;
    lemma_first_behind(before, x + end + b, start_key(name));
    assert(s =~= a + start + (x + end + b));
    lemma_first_behind(block, b, end_key(name));
    text::lemma_find_skip(s, end, inner);
    assert(s.skip(inner) =~= x + end + b);
    lemma_repeated_parts(block, rows, start_key(name));
    let all = before + repeated_parts(block, rows) + after;
    lemma_written_concat(before, repeated_parts(block, rows));
    lemma_written_concat(before + repeated_parts(block, rows), after);
    let next = a + template::repeated(x, rows) + b;
    assert(written(all) == next);
    assert forall|i: int| 0 <= i < all.len() implies plain_part(#[trigger] all[i]) && all[i]
        != Part::Safe(start_key(name)) && all[i] != Part::Raw(start_key(name)) by {
        let n = before.len();
        let m = repeated_parts(block, rows).len();
        if i < n {
            assert(all[i] == before[i]);
        } else if i < n + m {
            assert(all[i] == repeated_parts(block, rows)[i - n]);
        } else {
            assert(all[i] == after[i - n - m]);
        }
    }
    lemma_no_token_in_parts(all, Seq::empty(), start_key(name));
    assert(next + Seq::<char>::empty() =~= next);
    assert(!text::occurs(next, start)) by {
        if text::occurs(next, start) {
            lemma_braces();
            let q = choose|q: int| text::occurs_at(next, start, q);
            assert(start.len() > 0);
            assert(text::occurs_at(next + Seq::<char>::empty(), start, q));
        }
    }
    template::law_section_repeated(a, name, x, b, rows);
    let sections = seq![(name, rows)];
    let none = Seq::<(Seq<char>, Seq<template::Bindings>)>::empty();
    assert(sections.drop_last() =~= none);
    reveal_with_fuel(template::with_sections, 2);
    reveal_with_fuel(template::sections_end, 2);
    reveal_with_fuel(template::sections_end_within, 2);
    assert(template::with_sections(s, sections) == template::expanded(s, name, rows));
    template::lemma_one_section(a, name, x, b, rows);
    law_values_put_in(all, vars);
}

/// Binding a key gives it that value, and leaves every other key its own.
pub proof fn law_bound_keeps_others(
    vars: template::Bindings,
    key: Seq<char>,
    value: Seq<char>,
    other: Seq<char>,
)
    requires
        template::distinct_keys(vars),
    ensures
        template::distinct_keys(template::bound(vars, key, value)),
        value_of(template::bound(vars, key, value), other) == (if other == key {
            Some(value)
        } else {
            value_of(vars, other)
        }),
{
    let more = template::bound(vars, key, value);
    template::lemma_bound_distinct(vars, key, value);
    if other == key {
        if template::has_key(vars, key) {
            let i = choose|i: int| 0 <= i < vars.len() && (#[trigger] vars[i]).0 == key;
            assert(more[i] == (key, value));
            lemma_value_of(more, key, i);
        } else {
            assert(more[vars.len() as int] == (key, value));
            lemma_value_of(more, key, vars.len() as int);
        }
    } else if template::has_key(vars, other) {
        let i = choose|i: int| 0 <= i < vars.len() && (#[trigger] vars[i]).0 == other;
        assert(more[i] == vars[i]);
        lemma_value_of(vars, other, i);
        lemma_value_of(more, other, i);
    } else {
        assert forall|i: int| 0 <= i < more.len() implies (#[trigger] more[i]).0 != other by {
            if i < vars.len() {
                assert(vars[i].0 != other);
            }
        }
    }
}

/// Sections are expanded one after the other from the left: what the first one, behind parts
/// that open none, is repeated to stands in its place, and the page is expanded on from there,
/// whatever follows.
pub proof fn law_first_section_expanded(
    before: Seq<Part>,
    name: Seq<char>,
    block: Seq<Part>,
    rest: Seq<char>,
    rows: Seq<template::Bindings>,
)
    requires
        no_braces(name),
        plain_parts(before),
        plain_parts(block),
        lacks(before, start_key(name)),
        lacks(block, start_key(name)),
        lacks(block, end_key(name)),
        plain_rows(rows),
    ensures
        ({
            let page = written(before) + (seq!['{', '{', '#'] + name + seq!['}', '}']) + written(
                block,
            ) + (seq!['{', '{', '/'] + name + seq!['}', '}']) + rest;
            let next = written(before) + written(repeated_parts(block, rows)) + rest;
            &&& template::expansion_ends(page, name, rows) <==> template::expansion_ends(
                next,
                name,
                rows,
            )
            &&& template::expansion_ends(next, name, rows) ==> template::expanded(page, name, rows)
                == template::expanded(next, name, rows)
        }),
{
    lemma_tags(name);
    let a = written(before);
    let x = written(block);
    let start = template::start_tag(name);
    let end = template::end_tag(name);
    let s = a + start + x + end + rest;
    let inner = (a.len() + start.len()) as int;
    let last = inner + x.len();
    lemma_first_behind(before, x + end + rest, start_key(name));
    assert(s =~= a + start + (x + end + rest));
    lemma_first_behind(block, rest, end_key(name));
    text::lemma_find_skip(s, end, inner);
    assert(s.skip(inner) =~= x + end + rest);
    lemma_repeated_parts(block, rows, start_key(name));
    let next = a + written(repeated_parts(block, rows)) + rest;
    assert(s.take(a.len() as int) =~= a);
    assert(s.subrange(inner, last) =~= x);
    assert(s.skip(last + end.len()) =~= rest);
    assert(template::expand_first(s, name, rows) == Some(next));
    if template::expansion_ends(next, name, rows) {
        let n = choose|n: nat| template::expand_within(next, name, rows, n) is Some;
        assert(template::expand_within(s, name, rows, n + 1) == template::expand_within(
            next,
            name,
            rows,
            n,
        ));
        template::lemma_expanded(next, name, rows, n);
        template::lemma_expanded(s, name, rows, n + 1);
    }
    if template::expansion_ends(s, name, rows) {
        let n = choose|n: nat| template::expand_within(s, name, rows, n) is Some;
        assert(template::expand_within(next, name, rows, (n - 1) as nat) is Some);
    }
}

/// The sections of several names are expanded one name after the other, and a page without any
/// stays.
pub proof fn law_sections_name_by_name(
    s: Seq<char>,
    sections: template::SectionList,
    name: Seq<char>,
    rows: Seq<template::Bindings>,
)
    ensures
        template::with_sections(s, Seq::empty()) == s,
        template::with_sections(s, sections.push((name, rows))) == template::expanded(
            template::with_sections(s, sections),
            name,
            rows,
        ),
{
    assert(sections.push((name, rows)).drop_last() =~= sections);
}

/// There are two templates, each found by its own name, and no others.
pub proof fn law_templates_by_name(templates: template::Templates, name: Seq<char>)
    ensures
        templates.named(name) == (if name == "listing.html"@ {
            Some(templates.listing@)
        } else if name == "speedtest.html"@ {
            Some(templates.speedtest@)
        } else {
            None
        }),
{
}

} // verus!
