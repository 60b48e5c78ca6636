//! Page templates: placeholders and repeated sections.
use vstd::prelude::*;

use crate::html;
use crate::html::escape_html;
use crate::text;
use crate::text::{chars_of, find_from, push_all, push_range, replaced, same_text, string_of};

verus! {

// ---------------------------------------------------------------------------
// Bindings
// ---------------------------------------------------------------------------
/// Keys with their values, in the order in which they are put into a page.
pub type Bindings = Seq<(Seq<char>, Seq<char>)>;

/// No key is bound twice.
pub open spec fn distinct_keys<V>(b: Seq<(Seq<char>, V)>) -> bool {
    forall|i: int, j: int|
        0 <= i < j < b.len() ==> (#[trigger] b[i]).0 != (#[trigger] b[j]).0
}

/// `key` is bound.
pub open spec fn has_key<V>(b: Seq<(Seq<char>, V)>, key: Seq<char>) -> bool {
    exists|i: int| 0 <= i < b.len() && (#[trigger] b[i]).0 == key
}

/// `b` with `key` bound to `value`: in its old place if it was bound, else at the end.
pub open spec fn bound<V>(b: Seq<(Seq<char>, V)>, key: Seq<char>, value: V) -> Seq<
    (Seq<char>, V),
> {
    if has_key(b, key) {
        Seq::new(
            b.len(),
            |i: int|
                if b[i].0 == key {
                    (key, value)
                } else {
                    b[i]
                },
        )
    } else {
        b.push((key, value))
    }
}

/// Binding a key keeps the keys distinct.
pub proof fn lemma_bound_distinct<V>(b: Seq<(Seq<char>, V)>, key: Seq<char>, value: V)
    requires
        distinct_keys(b),
    ensures
        distinct_keys(bound(b, key, value)),
{
    let c = bound(b, key, value);
    assert forall|i: int, j: int| 0 <= i < j < c.len() implies (#[trigger] c[i]).0 != (
    #[trigger] c[j]).0 by {
        if has_key(b, key) {
            assert(c[i].0 == b[i].0 && c[j].0 == b[j].0);
        } else {
            assert(c[i] == b[i]);
            if j < b.len() {
                assert(c[j] == b[j]);
            }
        }
    }
}

/// Values for the placeholders of a page or of one row of a section.
pub struct Vars {
    entries: Vec<(String, String)>,
}

impl View for Vars {
    type V = Bindings;

    closed spec fn view(&self) -> Bindings {
        self.entries@.map_values(|e: (String, String)| (e.0@, e.1@))
    }
}

impl Vars {
    #[verifier::type_invariant]
    spec fn keys_once(&self) -> bool {
        distinct_keys(self@)
    }

    /// No values yet.
    pub fn new() -> (vars: Self)
        ensures
            vars@ == Bindings::empty(),
    {
        let vars = Vars { entries: Vec::new() };
        proof {
            assert(vars@ =~= Bindings::empty());
        }
        vars
    }

    /// Binds `key` to `value`. A key that was bound takes the new value.
    pub fn insert(&mut self, key: &str, value: String)
        ensures
            final(self)@ == bound(old(self)@, key@, value@),
            distinct_keys(final(self)@),
    {
        proof {
            use_type_invariant(&*self);
        }
        let ghost before = self@;
        let mut entries: Vec<(String, String)> = Vec::new();
        std::mem::swap(&mut entries, &mut self.entries);
        let name = key.to_owned();
        let mut i: usize = 0;
        while i < entries.len()
            invariant
                name@ == key@,
                before == old(self)@,
                i <= entries@.len(),
                before == entries@.map_values(|e: (String, String)| (e.0@, e.1@)),
                distinct_keys(before),
                forall|j: int| 0 <= j < i ==> (#[trigger] before[j]).0 != key@,
            decreases entries@.len() - i,
        {
            proof {
                assert(before[i as int].0 == entries@[i as int].0@);
            }
            if entries[i].0 == name {
                entries.set(i, (name, value));
                proof {
                    assert(has_key(before, key@));
                    assert(entries@.map_values(|e: (String, String)| (e.0@, e.1@)) =~= bound(
                        before,
                        key@,
                        value@,
                    ));
                    lemma_bound_distinct(before, key@, value@);
                }
                self.entries = entries;
                return;
            }
            i += 1;
        }
        entries.push((name, value));
        proof {
            assert(!has_key(before, key@));
            assert(entries@.map_values(|e: (String, String)| (e.0@, e.1@)) =~= bound(
                before,
                key@,
                value@,
            ));
            lemma_bound_distinct(before, key@, value@);
        }
        self.entries = entries;
    }
}

// ---------------------------------------------------------------------------
// Placeholders
// ---------------------------------------------------------------------------
/// The placeholder that is replaced by a value as it is: `{{{key}}}`.
pub open spec fn raw_token(key: Seq<char>) -> Seq<char> {
    "{{{"@ + key + "}}}"@
}

/// The placeholder that is replaced by a value made safe for HTML: `{{key}}`.
pub open spec fn token(key: Seq<char>) -> Seq<char> {
    "{{"@ + key + "}}"@
}

/// `s` with the placeholders of one key replaced: first the raw one, then the safe one.
pub open spec fn with_value(s: Seq<char>, key: Seq<char>, value: Seq<char>) -> Seq<char> {
    text::replace_all(
        text::replace_all(s, raw_token(key), value),
        token(key),
        html::escaped(value),
    )
}

/// `s` with the placeholders of all keys replaced, one key after the other.
pub open spec fn with_values(s: Seq<char>, vars: Bindings) -> Seq<char>
    decreases vars.len(),
{
    if vars.len() == 0 {
        s
    } else {
        with_value(with_values(s, vars.drop_last()), vars.last().0, vars.last().1)
    }
}

/// The characters of `open`, `name` and `close`, one after the other.
fn framed(open: &str, name: &str, close: &str) -> (r: Vec<char>)
    ensures
        r@ == open@ + name@ + close@,
{
    let mut r: Vec<char> = chars_of(open);
    push_all(&mut r, chars_of(name).as_slice());
    push_all(&mut r, chars_of(close).as_slice());
    r
}

/// Replaces the placeholders of all keys.
fn fill_in(s: Vec<char>, vars: &Vars) -> (r: Vec<char>)
    ensures
        r@ == with_values(s@, vars@),
{
    let mut output: Vec<char> = s;
    let ghost given = s@;
    let mut i: usize = 0;
    while i < vars.entries.len()
        invariant
            i <= vars.entries@.len(),
            vars@.len() == vars.entries@.len(),
            output@ == with_values(given, vars@.take(i as int)),
        decreases vars.entries@.len() - i,
    {
        let key = vars.entries[i].0.as_str();
        let value = vars.entries[i].1.as_str();
        let raw: Vec<char> = framed("{{{", key, "}}}");
        let safe: Vec<char> = framed("{{", key, "}}");
        proof {
            reveal_strlit("{{{");
            reveal_strlit("{{");
            assert(vars@[i as int] == (key@, value@));
            assert(vars@.take(i + 1).drop_last() =~= vars@.take(i as int));
        }
        output = replaced(output.as_slice(), raw.as_slice(), chars_of(value).as_slice());
        let plain = escape_html(value);
        output = replaced(output.as_slice(), safe.as_slice(), chars_of(plain.as_str()).as_slice());
        i += 1;
    }
    proof {
        assert(vars@.take(vars@.len() as int) =~= vars@);
    }
    output
}

/// The template with the placeholders of every bound key replaced.
pub fn render_vars(template: &str, vars: &Vars) -> (r: String)
    ensures
        r@ == with_values(template@, vars@),
{
    string_of(fill_in(chars_of(template), vars).as_slice())
}

// ---------------------------------------------------------------------------
// Sections
// ---------------------------------------------------------------------------
/// Section names with the rows that each section is repeated for.
pub type SectionList = Seq<(Seq<char>, Seq<Bindings>)>;

/// The bindings of each row.
pub open spec fn row_bindings(rows: Seq<Vars>) -> Seq<Bindings> {
    rows.map_values(|row: Vars| row@)
}

/// The repeated sections of a page.
pub struct Sections {
    entries: Vec<(String, Vec<Vars>)>,
}

impl View for Sections {
    type V = SectionList;

    closed spec fn view(&self) -> SectionList {
        self.entries@.map_values(|e: (String, Vec<Vars>)| (e.0@, row_bindings(e.1@)))
    }
}

impl Sections {
    #[verifier::type_invariant]
    spec fn names_once(&self) -> bool {
        distinct_keys(self@)
    }

    /// No sections yet.
    pub fn new() -> (sections: Self)
        ensures
            sections@ == SectionList::empty(),
    {
        let sections = Sections { entries: Vec::new() };
        proof {
            assert(sections@ =~= SectionList::empty());
        }
        sections
    }

    /// Sets the rows of section `name`. A section that was set takes the new rows.
    pub fn insert(&mut self, name: &str, rows: Vec<Vars>)
        ensures
            final(self)@ == bound(old(self)@, name@, row_bindings(rows@)),
            distinct_keys(final(self)@),
    {
        proof {
            use_type_invariant(&*self);
        }
        let ghost before = self@;
        let ghost shown = |e: (String, Vec<Vars>)| (e.0@, row_bindings(e.1@));
        let mut entries: Vec<(String, Vec<Vars>)> = Vec::new();
        std::mem::swap(&mut entries, &mut self.entries);
        let key = name.to_owned();
        let mut i: usize = 0;
        while i < entries.len()
            invariant
                key@ == name@,
                before == old(self)@,
                i <= entries@.len(),
                shown == (|e: (String, Vec<Vars>)| (e.0@, row_bindings(e.1@))),
                before == entries@.map_values(shown),
                distinct_keys(before),
                forall|j: int| 0 <= j < i ==> (#[trigger] before[j]).0 != name@,
            decreases entries@.len() - i,
        {
            proof {
                assert(before[i as int].0 == entries@[i as int].0@);
            }
            if entries[i].0 == key {
                entries.set(i, (key, rows));
                proof {
                    let list = bound(before, name@, row_bindings(rows@));
                    assert(has_key(before, name@));
                    assert(entries@.map_values(shown) =~= list);
                    lemma_bound_distinct(before, name@, row_bindings(rows@));
                }
                self.entries = entries;
                return;
            }
            i += 1;
        }
        entries.push((key, rows));
        proof {
            let list = bound(before, name@, row_bindings(rows@));
            assert(!has_key(before, name@));
            assert(entries@.map_values(shown) =~= list);
            lemma_bound_distinct(before, name@, row_bindings(rows@));
        }
        self.entries = entries;
    }
}

/// What opens a section: `{{#name}}`.
pub open spec fn start_tag(name: Seq<char>) -> Seq<char> {
    "{{#"@ + name + "}}"@
}

/// What closes a section: `{{/name}}`.
pub open spec fn end_tag(name: Seq<char>) -> Seq<char> {
    "{{/"@ + name + "}}"@
}

/// The block, once for each row, with the row's values in it.
pub open spec fn repeated(block: Seq<char>, rows: Seq<Bindings>) -> Seq<char>
    decreases rows.len(),
{
    if rows.len() == 0 {
        Seq::empty()
    } else {
        repeated(block, rows.drop_last()) + with_values(block, rows.last())
    }
}

/// `s` with its first section of that name repeated for the rows; nothing, where no such
/// section is opened or the first one opened is never closed.
pub open spec fn expand_first(s: Seq<char>, name: Seq<char>, rows: Seq<Bindings>) -> Option<
    Seq<char>,
> {
    match text::find(s, start_tag(name), 0) {
        None => None,
        Some(start) => {
            let inner = start + start_tag(name).len();
            match text::find(s, end_tag(name), inner) {
                None => None,
                Some(end) => Some(
                    s.take(start) + repeated(s.subrange(inner, end), rows) + s.skip(
                        end + end_tag(name).len(),
                    ),
                ),
            }
        },
    }
}

/// `s` with section after section expanded until none is left, if at most `steps` of them
/// have to be. What a row puts into the page is searched for sections again.
pub open spec fn expand_within(
    s: Seq<char>,
    name: Seq<char>,
    rows: Seq<Bindings>,
    steps: nat,
) -> Option<Seq<char>>
    decreases steps,
{
    match expand_first(s, name, rows) {
        None => Some(s),
        Some(next) => if steps == 0 {
            None
        } else {
            expand_within(next, name, rows, (steps - 1) as nat)
        },
    }
}

/// Expanding section after section comes to an end.
pub open spec fn expansion_ends(s: Seq<char>, name: Seq<char>, rows: Seq<Bindings>) -> bool {
    exists|steps: nat| expand_within(s, name, rows, steps) is Some
}

/// `s` with all sections of that name expanded.
pub open spec fn expanded(s: Seq<char>, name: Seq<char>, rows: Seq<Bindings>) -> Seq<char> {
    expand_within(
        s,
        name,
        rows,
        choose|steps: nat| expand_within(s, name, rows, steps) is Some,
    )->0
}

/// `s` with the sections of every name expanded, one name after the other.
pub open spec fn with_sections(s: Seq<char>, sections: SectionList) -> Seq<char>
    decreases sections.len(),
{
    if sections.len() == 0 {
        s
    } else {
        expanded(with_sections(s, sections.drop_last()), sections.last().0, sections.last().1)
    }
}

/// Expanding the sections of every name comes to an end.
pub open spec fn sections_end(s: Seq<char>, sections: SectionList) -> bool
    decreases sections.len(),
{
    sections.len() > 0 ==> {
        &&& sections_end(s, sections.drop_last())
        &&& expansion_ends(
            with_sections(s, sections.drop_last()),
            sections.last().0,
            sections.last().1,
        )
    }
}

/// Expanding the sections of every name comes to an end after at most `steps` sections of
/// each.
pub open spec fn sections_end_within(s: Seq<char>, sections: SectionList, steps: nat) -> bool
    decreases sections.len(),
{
    sections.len() > 0 ==> {
        &&& sections_end_within(s, sections.drop_last(), steps)
        &&& expand_within(
            with_sections(s, sections.drop_last()),
            sections.last().0,
            sections.last().1,
            steps,
        ) is Some
    }
}

/// More steps than are needed change nothing.
proof fn lemma_expand_more(
    s: Seq<char>,
    name: Seq<char>,
    rows: Seq<Bindings>,
    few: nat,
    many: nat,
)
    requires
        few <= many,
        expand_within(s, name, rows, few) is Some,
    ensures
        expand_within(s, name, rows, many) == expand_within(s, name, rows, few),
    decreases few,
{
    match expand_first(s, name, rows) {
        None => {},
        Some(next) => {
            lemma_expand_more(next, name, rows, (few - 1) as nat, (many - 1) as nat);
        },
    }
}

/// An expansion that ends within some number of steps gives the expanded text.
pub proof fn lemma_expanded(s: Seq<char>, name: Seq<char>, rows: Seq<Bindings>, steps: nat)
    requires
        expand_within(s, name, rows, steps) is Some,
    ensures
        expansion_ends(s, name, rows),
        expand_within(s, name, rows, steps) == Some(expanded(s, name, rows)),
{
    let other = choose|n: nat| expand_within(s, name, rows, n) is Some;
    if steps <= other {
        lemma_expand_more(s, name, rows, steps, other);
    } else {
        lemma_expand_more(s, name, rows, other, steps);
    }
}

/// The block, once for each row, with the row's values in it.
fn repeat_block(block: &[char], rows: &Vec<Vars>) -> (r: Vec<char>)
    ensures
        r@ == repeated(block@, row_bindings(rows@)),
{
    let mut rendered: Vec<char> = Vec::new();
    let ghost all = row_bindings(rows@);
    let mut i: usize = 0;
    while i < rows.len()
        invariant
            i <= rows@.len(),
            all == row_bindings(rows@),
            rendered@ == repeated(block@, all.take(i as int)),
        decreases rows@.len() - i,
    {
        let mut copy: Vec<char> = Vec::new();
        push_all(&mut copy, block);
        proof {
            assert(copy@ =~= block@);
            assert(all.take(i + 1).drop_last() =~= all.take(i as int));
            assert(all[i as int] == rows@[i as int]@);
        }
        let filled: Vec<char> = fill_in(copy, &rows[i]);
        push_all(&mut rendered, filled.as_slice());
        i += 1;
    }
    proof {
        assert(all.take(all.len() as int) =~= all);
    }
    rendered
}

/// Expands the first section of that name, if there is one.
fn expand_next(s: &[char], name: &str, rows: &Vec<Vars>) -> (r: Option<Vec<char>>)
    ensures
        match r {
            Some(next) => expand_first(s@, name@, row_bindings(rows@)) == Some(next@),
            None => expand_first(s@, name@, row_bindings(rows@)) is None,
        },
{
    let opening: Vec<char> = framed("{{#", name, "}}");
    let closing: Vec<char> = framed("{{/", name, "}}");
    let len: usize = s.len();
    match find_from(s, opening.as_slice(), 0) {
        None => None,
        Some(start) => {
            let inner: usize = start + opening.len();
            match find_from(s, closing.as_slice(), inner) {
                None => None,
                Some(end) => {
                    let mut block: Vec<char> = Vec::new();
                    push_range(&mut block, s, inner, end);
                    let rendered: Vec<char> = repeat_block(block.as_slice(), rows);
                    let mut next: Vec<char> = Vec::new();
                    push_range(&mut next, s, 0, start);
                    push_all(&mut next, rendered.as_slice());
                    push_range(&mut next, s, end + closing.len(), len);
                    proof {
                        assert(block@ =~= s@.subrange(inner as int, end as int));
                        assert(s@.subrange(0, start as int) =~= s@.take(start as int));
                        assert(s@.subrange(end + closing@.len(), len as int) =~= s@.skip(
                            end + closing@.len(),
                        ));
                    }
                    Some(next)
                },
            }
        },
    }
}

/// Expands section after section of that name until none is left.
fn expand_all(s: Vec<char>, name: &str, rows: &Vec<Vars>) -> (r: Vec<char>)
    requires
        expansion_ends(s@, name@, row_bindings(rows@)),
    ensures
        r@ == expanded(s@, name@, row_bindings(rows@)),
{
    let ghost all = row_bindings(rows@);
    let ghost result = expanded(s@, name@, all);
    let ghost mut left: nat = choose|n: nat| expand_within(s@, name@, all, n) is Some;
    let mut output: Vec<char> = s;
    loop
        invariant
            all == row_bindings(rows@),
            expand_within(output@, name@, all, left) == Some(result),
        ensures
            output@ == result,
        decreases left,
    {
        match expand_next(output.as_slice(), name, rows) {
            None => {
                break;
            },
            Some(next) => {
                output = next;
                proof {
                    left = (left - 1) as nat;
                }
            },
        }
    }
    output
}

/// Expands section after section of that name, at most `steps` of them.
fn expand_some(s: Vec<char>, name: &str, rows: &Vec<Vars>, steps: usize) -> (r: Option<
    Vec<char>,
>)
    ensures
        match r {
            Some(out) => expand_within(s@, name@, row_bindings(rows@), steps as nat) == Some(out@),
            None => expand_within(s@, name@, row_bindings(rows@), steps as nat) is None,
        },
{
    let ghost all = row_bindings(rows@);
    let ghost result = expand_within(s@, name@, all, steps as nat);
    let mut output: Vec<char> = s;
    let mut left: usize = steps;
    loop
        invariant
            all == row_bindings(rows@),
            result == expand_within(s@, name@, all, steps as nat),
            expand_within(output@, name@, all, left as nat) == result,
        decreases left,
    {
        match expand_next(output.as_slice(), name, rows) {
            None => {
                return Some(output);
            },
            Some(next) => {
                if left == 0 {
                    return None;
                }
                output = next;
                left -= 1;
            },
        }
    }
}

/// The template with every section expanded.
pub fn render_sections(template: &str, sections: &Sections) -> (r: String)
    requires
        sections_end(template@, sections@),
    ensures
        r@ == with_sections(template@, sections@),
{
    let mut output: Vec<char> = chars_of(template);
    let ghost list = sections@;
    let mut i: usize = 0;
    proof {
        assert(list.take(list.len() as int) =~= list);
    }
    while i < sections.entries.len()
        invariant
            i <= sections.entries@.len(),
            list == sections@,
            list.len() == sections.entries@.len(),
            sections_end(template@, list),
            output@ == with_sections(template@, list.take(i as int)),
        decreases sections.entries@.len() - i,
    {
        proof {
            lemma_sections_end_prefix(template@, list, i + 1);
            assert(list.take(i + 1).drop_last() =~= list.take(i as int));
            assert(list[i as int] == (
                sections.entries@[i as int].0@,
                row_bindings(sections.entries@[i as int].1@),
            ));
        }
        output = expand_all(
            output,
            sections.entries[i].0.as_str(),
            &sections.entries[i].1,
        );
        i += 1;
    }
    string_of(output.as_slice())
}

/// Where all expansions end, those of the first sections do.
proof fn lemma_sections_end_prefix(s: Seq<char>, sections: SectionList, i: int)
    requires
        sections_end(s, sections),
        0 <= i <= sections.len(),
    ensures
        sections_end(s, sections.take(i)),
    decreases sections.len(),
{
    if i == sections.len() {
        assert(sections.take(i) =~= sections);
    } else {
        lemma_sections_end_prefix(s, sections.drop_last(), i);
        assert(sections.drop_last().take(i) =~= sections.take(i));
    }
}

/// Where all expansions end within some number of steps, those of the first sections do.
proof fn lemma_sections_end_within_prefix(
    s: Seq<char>,
    sections: SectionList,
    steps: nat,
    i: int,
)
    requires
        sections_end_within(s, sections, steps),
        0 <= i <= sections.len(),
    ensures
        sections_end_within(s, sections.take(i), steps),
    decreases sections.len(),
{
    if i == sections.len() {
        assert(sections.take(i) =~= sections);
    } else {
        lemma_sections_end_within_prefix(s, sections.drop_last(), steps, i);
        assert(sections.drop_last().take(i) =~= sections.take(i));
    }
}

/// Expansions that end within some number of steps end.
pub proof fn lemma_sections_end(s: Seq<char>, sections: SectionList, steps: nat)
    requires
        sections_end_within(s, sections, steps),
    ensures
        sections_end(s, sections),
    decreases sections.len(),
{
    if sections.len() > 0 {
        lemma_sections_end(s, sections.drop_last(), steps);
        lemma_expanded(
            with_sections(s, sections.drop_last()),
            sections.last().0,
            sections.last().1,
            steps,
        );
    }
}

/// The template with every section expanded, or nothing where some name has more than
/// `steps` sections to expand. Rows whose values open sections themselves can keep the
/// expansion from ever ending.
pub fn render_sections_within(template: &str, sections: &Sections, steps: usize) -> (r: Option<
    String,
>)
    ensures
        match r {
            Some(out) => {
                &&& sections_end_within(template@, sections@, steps as nat)
                &&& sections_end(template@, sections@)
                &&& out@ == with_sections(template@, sections@)
            },
            None => !sections_end_within(template@, sections@, steps as nat),
        },
{
    let mut output: Vec<char> = chars_of(template);
    let ghost list = sections@;
    let mut i: usize = 0;
    proof {
        assert(list.take(list.len() as int) =~= list);
    }
    while i < sections.entries.len()
        invariant
            i <= sections.entries@.len(),
            list == sections@,
            list.len() == sections.entries@.len(),
            sections_end_within(template@, list.take(i as int), steps as nat),
            output@ == with_sections(template@, list.take(i as int)),
        decreases sections.entries@.len() - i,
    {
        let ghost before = output@;
        proof {
            assert(list.take(i + 1).drop_last() =~= list.take(i as int));
            assert(list[i as int] == (
                sections.entries@[i as int].0@,
                row_bindings(sections.entries@[i as int].1@),
            ));
        }
        match expand_some(
            output,
            sections.entries[i].0.as_str(),
            &sections.entries[i].1,
            steps,
        ) {
            None => {
                proof {
                    if sections_end_within(template@, list, steps as nat) {
                        lemma_sections_end_within_prefix(template@, list, steps as nat, i + 1);
                    }
                }
                return None;
            },
            Some(next) => {
                proof {
                    lemma_expanded(before, list[i as int].0, list[i as int].1, steps as nat);
                }
                output = next;
            },
        }
        i += 1;
    }
    proof {
        lemma_sections_end(template@, list, steps as nat);
    }
    Some(string_of(output.as_slice()))
}

// ---------------------------------------------------------------------------
// Pages
// ---------------------------------------------------------------------------
/// What a page is rendered with.
pub struct TemplateContext {
    pub vars: Vars,
    pub sections: Sections,
}

impl TemplateContext {
    /// No values and no sections.
    pub fn new() -> (ctx: Self)
        ensures
            ctx.vars@ == Bindings::empty(),
            ctx.sections@ == SectionList::empty(),
    {
        TemplateContext { vars: Vars::new(), sections: Sections::new() }
    }
}

/// The rendered page: sections first, then the placeholders in all that is there.
pub open spec fn rendered(template: Seq<char>, ctx: TemplateContext) -> Seq<char> {
    with_values(with_sections(template, ctx.sections@), ctx.vars@)
}

/// The template rendered with the context.
pub fn apply_template(template: &str, ctx: &TemplateContext) -> (r: String)
    requires
        sections_end(template@, ctx.sections@),
    ensures
        r@ == rendered(template@, *ctx),
{
    let with_sections = render_sections(template, &ctx.sections);
    render_vars(with_sections.as_str(), &ctx.vars)
}

/// The texts of the page templates.
pub struct Templates {
    /// `listing.html`
    pub listing: String,
    /// `speedtest.html`
    pub speedtest: String,
}

impl Templates {
    /// The text of the template of that name.
    pub open spec fn named(&self, name: Seq<char>) -> Option<Seq<char>> {
        if name == "listing.html"@ {
            Some(self.listing@)
        } else if name == "speedtest.html"@ {
            Some(self.speedtest@)
        } else {
            None
        }
    }

    /// The text of the template of that name.
    pub fn get(&self, name: &str) -> (r: Option<&str>)
        ensures
            match r {
                Some(template) => self.named(name@) == Some(template@),
                None => self.named(name@) is None,
            },
    {
        if same_text(name, "listing.html") {
            Some(self.listing.as_str())
        } else if same_text(name, "speedtest.html") {
            Some(self.speedtest.as_str())
        } else {
            None
        }
    }
}

/// Why a page could not be rendered.
#[derive(Clone, Copy, Debug, PartialEq, Eq, Structural)]
pub enum TemplateError {
    /// There is no template of that name.
    NotFound,
}

impl TemplateError {
    /// The error in words.
    pub fn message(&self) -> (r: String)
        ensures
            r@ == "template not found"@,
    {
        "template not found".to_owned()
    }
}

/// The page rendered from the template of that name; an error, exactly where there is no
/// such template.
pub fn render_template(templates: &Templates, name: &str, ctx: &TemplateContext) -> (r: Result<
    String,
    TemplateError,
>)
    requires
        templates.named(name@) matches Some(template) ==> sections_end(template, ctx.sections@),
    ensures
        match templates.named(name@) {
            Some(template) => r matches Ok(page) && page@ == rendered(template, *ctx),
            None => r == Err::<String, TemplateError>(TemplateError::NotFound),
        },
{
    match templates.get(name) {
        Some(template) => Ok(apply_template(template, ctx)),
        None => Err(TemplateError::NotFound),
    }
}

// ---------------------------------------------------------------------------
// Laws
// ---------------------------------------------------------------------------
/// A key that a template does not use leaves it as it is.
pub proof fn law_unused_key(s: Seq<char>, key: Seq<char>, value: Seq<char>)
    requires
        !text::occurs(s, raw_token(key)),
        !text::occurs(s, token(key)),
    ensures
        with_value(s, key, value) == s,
{
    text::law_replace_absent(s, raw_token(key), value);
    text::law_replace_absent(s, token(key), html::escaped(value));
}

/// A placeholder is replaced by the value, made safe for HTML, and the text around it stays.
pub proof fn law_value_put_in(
    a: Seq<char>,
    key: Seq<char>,
    b: Seq<char>,
    value: Seq<char>,
)
    requires
        text::find(a + token(key) + b, token(key), 0) == Some(a.len() as int),
        !text::occurs(b, token(key)),
        !text::occurs(a + token(key) + b, raw_token(key)),
    ensures
        with_value(a + token(key) + b, key, value) == a + html::escaped(value) + b,
{
    reveal_strlit("{{");
    text::law_replace_absent(a + token(key) + b, raw_token(key), value);
    text::law_replace_once(a, token(key), b, html::escaped(value));
}

/// A raw placeholder is replaced by the value as it is, and the text around it stays, as long
/// as no placeholder of the same key comes with the value or was there before.
pub proof fn law_raw_value_put_in(
    a: Seq<char>,
    key: Seq<char>,
    b: Seq<char>,
    value: Seq<char>,
)
    requires
        text::find(a + raw_token(key) + b, raw_token(key), 0) == Some(a.len() as int),
        !text::occurs(b, raw_token(key)),
        !text::occurs(a + value + b, token(key)),
    ensures
        with_value(a + raw_token(key) + b, key, value) == a + value + b,
{
    reveal_strlit("{{{");
    text::law_replace_once(a, raw_token(key), b, value);
    text::law_replace_absent(a + value + b, token(key), html::escaped(value));
}

/// A template that opens no section of a name stays as it is, whatever the rows.
pub proof fn law_unused_section(s: Seq<char>, name: Seq<char>, rows: Seq<Bindings>)
    requires
        !text::occurs(s, start_tag(name)),
    ensures
        expansion_ends(s, name, rows),
        expanded(s, name, rows) == s,
{
    text::lemma_find_none(s, start_tag(name), 0);
    assert(expand_within(s, name, rows, 0) == Some(s));
    lemma_expanded(s, name, rows, 0);
}

/// A section is replaced by its block, once for each row with the row's values in it, and the
/// text around it stays. With no rows, nothing is left of it.
pub proof fn law_section_repeated(
    a: Seq<char>,
    name: Seq<char>,
    block: Seq<char>,
    b: Seq<char>,
    rows: Seq<Bindings>,
)
    requires
        ({
            let s = a + start_tag(name) + block + end_tag(name) + b;
            &&& text::find(s, start_tag(name), 0) == Some(a.len() as int)
            &&& text::find(s, end_tag(name), (a.len() + start_tag(name).len()) as int) == Some(
                (a.len() + start_tag(name).len() + block.len()) as int,
            )
        }),
        !text::occurs(a + repeated(block, rows) + b, start_tag(name)),
    ensures
        ({
            let s = a + start_tag(name) + block + end_tag(name) + b;
            &&& expansion_ends(s, name, rows)
            &&& expanded(s, name, rows) == a + repeated(block, rows) + b
        }),
        rows.len() == 0 ==> repeated(block, rows) == Seq::<char>::empty(),
{
    let s = a + start_tag(name) + block + end_tag(name) + b;
    lemma_one_section(a, name, block, b, rows);
    lemma_expanded(s, name, rows, 1);
}

/// A section that leaves none behind is expanded in one step.
pub proof fn lemma_one_section(
    a: Seq<char>,
    name: Seq<char>,
    block: Seq<char>,
    b: Seq<char>,
    rows: Seq<Bindings>,
)
    requires
        ({
            let s = a + start_tag(name) + block + end_tag(name) + b;
            &&& text::find(s, start_tag(name), 0) == Some(a.len() as int)
            &&& text::find(s, end_tag(name), (a.len() + start_tag(name).len()) as int) == Some(
                (a.len() + start_tag(name).len() + block.len()) as int,
            )
        }),
        !text::occurs(a + repeated(block, rows) + b, start_tag(name)),
    ensures
        expand_within(a + start_tag(name) + block + end_tag(name) + b, name, rows, 1) == Some(
            a + repeated(block, rows) + b,
        ),
{
    let s = a + start_tag(name) + block + end_tag(name) + b;
    let inner = (a.len() + start_tag(name).len()) as int;
    let end = inner + block.len();
    let next = a + repeated(block, rows) + b;
    assert(s.take(a.len() as int) =~= a);
    assert(s.subrange(inner, end) =~= block);
    assert(s.skip(end + end_tag(name).len()) =~= b);
    assert(expand_first(s, name, rows) == Some(next));
    text::lemma_find_none(next, start_tag(name), 0);
    assert(expand_within(next, name, rows, 0) == Some(next));
    assert(expand_within(s, name, rows, 1) == expand_within(next, name, rows, 0));
}

/// When a name's sections are expanded, none is left that is opened and closed.
pub proof fn law_no_section_left(s: Seq<char>, name: Seq<char>, rows: Seq<Bindings>)
    requires
        expansion_ends(s, name, rows),
    ensures
        expand_first(expanded(s, name, rows), name, rows) is None,
{
    let steps = choose|n: nat| expand_within(s, name, rows, n) is Some;
    lemma_nothing_left(s, name, rows, steps);
}

proof fn lemma_nothing_left(s: Seq<char>, name: Seq<char>, rows: Seq<Bindings>, steps: nat)
    requires
        expand_within(s, name, rows, steps) is Some,
    ensures
        expand_first(expand_within(s, name, rows, steps)->0, name, rows) is None,
    decreases steps,
{
    if let Some(next) = expand_first(s, name, rows) {
        lemma_nothing_left(next, name, rows, (steps - 1) as nat);
    }
}

/// Expanding what was expanded changes nothing.
pub proof fn law_expanded_idempotent(s: Seq<char>, name: Seq<char>, rows: Seq<Bindings>)
    requires
        expansion_ends(s, name, rows),
    ensures
        expansion_ends(expanded(s, name, rows), name, rows),
        expanded(expanded(s, name, rows), name, rows) == expanded(s, name, rows),
{
    law_no_section_left(s, name, rows);
    let t = expanded(s, name, rows);
    assert(expand_within(t, name, rows, 0) == Some(t));
    lemma_expanded(t, name, rows, 0);
}

/// Each row of a section stands in the page in the order of the rows.
pub proof fn law_repeated_concat(block: Seq<char>, a: Seq<Bindings>, b: Seq<Bindings>)
    ensures
        repeated(block, a + b) == repeated(block, a) + repeated(block, b),
    decreases b.len(),
{
    if b.len() == 0 {
        assert(a + b =~= a);
        assert(repeated(block, a) + repeated(block, b) =~= repeated(block, a));
    } else {
        law_repeated_concat(block, a, b.drop_last());
        assert((a + b).drop_last() =~= a + b.drop_last());
        assert(repeated(block, a + b) =~= repeated(block, a) + repeated(block, b));
    }
}

/// Each row stands for its bindings, in its place.
pub proof fn law_bindings_of_rows(rows: Seq<Vars>, i: int)
    ensures
        row_bindings(rows).len() == rows.len(),
        0 <= i < rows.len() ==> row_bindings(rows)[i] == rows[i]@,
{
}

/// The values of a page are put in after its sections are expanded, and so into what the rows
/// have brought, too.
pub proof fn law_values_after_sections(template: Seq<char>, ctx: TemplateContext)
    ensures
        rendered(template, ctx) == with_values(
            with_sections(template, ctx.sections@),
            ctx.vars@,
        ),
{
}

/// Values are put in one key after the other, in the order of the keys, and the raw placeholders
/// of each before the safe ones. Nothing is put in where there are no values.
pub proof fn law_values_key_by_key(
    s: Seq<char>,
    vars: Bindings,
    key: Seq<char>,
    value: Seq<char>,
)
    ensures
        with_values(s, Seq::empty()) == s,
        with_values(s, vars.push((key, value))) == text::replace_all(
            text::replace_all(
                with_values(s, vars),
                seq!['{', '{', '{'] + key + seq!['}', '}', '}'],
                value,
            ),
            seq!['{', '{'] + key + seq!['}', '}'],
            html::escaped(value),
        ),
{
    reveal_strlit("{{{");
    reveal_strlit("}}}");
    reveal_strlit("{{");
    reveal_strlit("}}");
    assert(vars.push((key, value)).drop_last() =~= vars);
    assert(raw_token(key) =~= seq!['{', '{', '{'] + key + seq!['}', '}', '}']);
    assert(token(key) =~= seq!['{', '{'] + key + seq!['}', '}']);
}

} // verus!
