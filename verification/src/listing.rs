//! The page that shows what a directory holds, and the page that only measures speed.
use vstd::prelude::*;

use crate::lists;
use crate::order;
use crate::parts;
use crate::path;
use crate::path::{Platform, RelativePath};
use crate::template;
use crate::template::{
    render_sections_within, render_template, TemplateContext, TemplateError, Templates, Vars,
};
use crate::text;
use crate::text::{chars_not_after, chars_of};

verus! {

// ---------------------------------------------------------------------------
// Entries
// ---------------------------------------------------------------------------
/// An entry of a directory.
pub struct Row {
    pub name: String,
    pub is_dir: bool,
}

impl View for Row {
    type V = (Seq<char>, bool);

    open spec fn view(&self) -> (Seq<char>, bool) {
        (self.name@, self.is_dir)
    }
}

/// The names of the entries, and whether they are directories.
pub open spec fn entries(rows: Seq<Row>) -> Seq<(Seq<char>, bool)> {
    rows.map_values(|row: Row| row@)
}

/// What `str::to_lowercase` makes of a text: its lower case, by Unicode's rules.
pub uninterp spec fn lowercase(s: Seq<char>) -> Seq<char>;

/// `str::to_lowercase` gives the lower case of the text, which depends on nothing but the
/// text. What the lower case of a given text is, is left to Unicode's tables.
#[verifier::external_body]
fn to_lowercase(s: &str) -> (r: String)
    ensures
        r@ == lowercase(s@),
{
    s.to_lowercase()
}

// ---------------------------------------------------------------------------
// Order
// ---------------------------------------------------------------------------
/// The entries come in the order of their names, upper and lower case alike.
pub open spec fn in_name_order(s: Seq<(Seq<char>, bool)>) -> bool {
    forall|i: int, j: int|
        0 <= i < j < s.len() ==> text::text_le(
            lowercase((#[trigger] s[i]).0),
            lowercase((#[trigger] s[j]).0),
        )
}

/// Those of the entries whose names have the given lower case, in the order in which
/// they come.
pub open spec fn named_like(s: Seq<(Seq<char>, bool)>, key: Seq<char>) -> Seq<
    (Seq<char>, bool),
> {
    s.filter(|e: (Seq<char>, bool)| lowercase(e.0) == key)
}

/// `s` is `given` put into the order of names, where entries whose names differ only in case
/// keep the order in which they were given.
pub open spec fn is_name_order_of(
    given: Seq<(Seq<char>, bool)>,
    s: Seq<(Seq<char>, bool)>,
) -> bool {
    &&& in_name_order(s)
    &&& forall|key: Seq<char>| #[trigger] named_like(s, key) == named_like(given, key)
}

/// The entries, each with the lower case of its name as its key.
pub open spec fn lowercased(given: Seq<(Seq<char>, bool)>) -> Seq<
    (Seq<char>, (Seq<char>, bool)),
> {
    given.map_values(|e: (Seq<char>, bool)| (lowercase(e.0), e))
}

/// The entries without their keys.
pub open spec fn without_keys(s: Seq<(Seq<char>, (Seq<char>, bool))>) -> Seq<(Seq<char>, bool)> {
    s.map_values(|k: (Seq<char>, (Seq<char>, bool))| k.1)
}

/// The entries in the order of their names.
pub open spec fn by_name(given: Seq<(Seq<char>, bool)>) -> Seq<(Seq<char>, bool)> {
    without_keys(order::by_key(lowercased(given)))
}

/// Entries named alike are those with the same key.
proof fn lemma_named_like(s: Seq<(Seq<char>, bool)>, key: Seq<char>)
    ensures
        order::with_key(lowercased(s), key) == lowercased(named_like(s, key)),
        without_keys(order::with_key(lowercased(s), key)) == named_like(s, key),
    decreases s.len(),
{
    let like = |e: (Seq<char>, bool)| lowercase(e.0) == key;
    let same = order::has_key::<(Seq<char>, bool)>(key);
    if s.len() == 0 {
        lists::lemma_filter_none(s, like);
        lists::lemma_filter_none(lowercased(s), same);
        assert(order::with_key(lowercased(s), key) =~= lowercased(named_like(s, key)));
    } else {
        let front = s.drop_last();
        let e = s.last();
        lemma_named_like(front, key);
        assert(s =~= front.push(e));
        assert(lowercased(s) =~= lowercased(front).push((lowercase(e.0), e)));
        lists::lemma_filter_push(front, e, like);
        lists::lemma_filter_push(lowercased(front), (lowercase(e.0), e), same);
        assert(order::with_key(lowercased(s), key) =~= lowercased(named_like(s, key)));
    }
    assert(without_keys(lowercased(named_like(s, key))) =~= named_like(s, key));
}

/// The order of names is the order of their lower case.
proof fn lemma_name_order_is_key_order(
    given: Seq<(Seq<char>, bool)>,
    s: Seq<(Seq<char>, bool)>,
)
    ensures
        is_name_order_of(given, s) <==> order::is_key_order_of(lowercased(given), lowercased(s)),
{
    let g = lowercased(given);
    let t = lowercased(s);
    if is_name_order_of(given, s) {
        assert forall|key: Seq<char>| #[trigger]
            order::with_key(t, key) == order::with_key(g, key) by {
            lemma_named_like(given, key);
            lemma_named_like(s, key);
            assert(named_like(s, key) == named_like(given, key));
        }
        assert(order::in_key_order(t)) by {
            assert(forall|i: int| 0 <= i < s.len() ==> t[i].0 == lowercase((#[trigger] s[i]).0));
        }
    }
    if order::is_key_order_of(g, t) {
        assert forall|key: Seq<char>| #[trigger] named_like(s, key) == named_like(given, key) by {
            lemma_named_like(given, key);
            lemma_named_like(s, key);
            assert(order::with_key(t, key) == order::with_key(g, key));
        }
        assert(in_name_order(s)) by {
            assert forall|i: int, j: int| 0 <= i < j < s.len() implies text::text_le(
                lowercase((#[trigger] s[i]).0),
                lowercase((#[trigger] s[j]).0),
            ) by {
                assert(text::text_le(t[i].0, t[j].0));
            }
        }
    }
}

/// What is put into the order of its keys still has them.
proof fn lemma_keys_stay(
    given: Seq<(Seq<char>, bool)>,
    s: Seq<(Seq<char>, (Seq<char>, bool))>,
)
    requires
        order::is_key_order_of(lowercased(given), s),
    ensures
        lowercased(without_keys(s)) == s,
{
    broadcast use vstd::seq_lib::group_to_multiset_ensures;

    let g = lowercased(given);
    order::law_order_keeps_all(g, s);
    assert forall|i: int| 0 <= i < s.len() implies (#[trigger] s[i]).0 == lowercase(
        s[i].1.0,
    ) by {
        assert(s.contains(s[i]));
        assert(s.to_multiset().count(s[i]) > 0);
        assert(g.to_multiset().count(s[i]) > 0);
        assert(g.contains(s[i]));
        let k = choose|k: int| 0 <= k < g.len() && g[k] == s[i];
        assert(g[k] == (lowercase(given[k].0), given[k]));
    }
    assert(lowercased(without_keys(s)) =~= s);
}

/// There is one order of names only.
pub proof fn law_name_order_unique(
    given: Seq<(Seq<char>, bool)>,
    a: Seq<(Seq<char>, bool)>,
    b: Seq<(Seq<char>, bool)>,
)
    requires
        is_name_order_of(given, a),
        is_name_order_of(given, b),
    ensures
        a == b,
{
    lemma_name_order_is_key_order(given, a);
    lemma_name_order_is_key_order(given, b);
    order::law_key_order_unique(lowercased(given), lowercased(a), lowercased(b));
    assert(without_keys(lowercased(a)) =~= a);
    assert(without_keys(lowercased(b)) =~= b);
}

/// The entries, each with its key.
pub open spec fn keyed(rows: Seq<Row>, keys: Seq<String>) -> Seq<
    (Seq<char>, (Seq<char>, bool)),
> {
    Seq::new(rows.len(), |i: int| (keys[i]@, rows[i]@))
}

/// The entries in the order of the keys given for them. Entries with the same key keep their
/// order.
pub fn order_rows(rows: &Vec<Row>, keys: &Vec<String>) -> (r: Vec<Row>)
    requires
        keys@.len() == rows@.len(),
    ensures
        order::is_key_order_of(keyed(rows@, keys@), order::by_key(keyed(rows@, keys@))),
        entries(r@) == without_keys(order::by_key(keyed(rows@, keys@))),
{
    let ghost given = keyed(rows@, keys@);
    let ghost mut s = Seq::<(Seq<char>, (Seq<char>, bool))>::empty();
    let mut sorted: Vec<Row> = Vec::new();
    let mut placed: Vec<Vec<char>> = Vec::new();
    let mut i: usize = 0;
    proof {
        assert(given.take(0) =~= s);
        assert(entries(sorted@) =~= without_keys(s));
    }
    while i < rows.len()
        invariant
            keys@.len() == rows@.len(),
            given == keyed(rows@, keys@),
            i <= rows@.len(),
            placed@.len() == s.len(),
            sorted@.len() == s.len(),
            forall|k: int| 0 <= k < s.len() ==> (#[trigger] placed@[k])@ == s[k].0,
            entries(sorted@) == without_keys(s),
            order::is_key_order_of(given.take(i as int), s),
        decreases rows@.len() - i,
    {
        let key: Vec<char> = chars_of(keys[i].as_str());
        let ghost e = given[i as int];
        let mut p: usize = 0;
        let mut end: usize = sorted.len();
        while p < end
            invariant
                p <= end <= s.len(),
                placed@.len() == s.len(),
                forall|k: int| 0 <= k < s.len() ==> (#[trigger] placed@[k])@ == s[k].0,
                order::in_key_order(s),
                key@ == e.0,
                forall|k: int| 0 <= k < p ==> text::text_le((#[trigger] s[k]).0, e.0),
                forall|k: int| end <= k < s.len() ==> !text::text_le((#[trigger] s[k]).0, e.0),
            decreases end - p,
        {
            let middle: usize = p + (end - p) / 2;
            proof {
                assert(placed@[middle as int]@ == s[middle as int].0);
            }
            if chars_not_after(placed[middle].as_slice(), key.as_slice()) {
                proof {
                    assert forall|k: int| 0 <= k < middle + 1 implies text::text_le(
                        (#[trigger] s[k]).0,
                        e.0,
                    ) by {
                        if k < middle {
                            text::lemma_text_transitive(s[k].0, s[middle as int].0, e.0);
                        }
                    }
                }
                p = middle + 1;
            } else {
                proof {
                    assert forall|k: int| middle <= k < s.len() implies !text::text_le(
                        (#[trigger] s[k]).0,
                        e.0,
                    ) by {
                        if k > middle && text::text_le(s[k].0, e.0) {
                            text::lemma_text_transitive(s[middle as int].0, s[k].0, e.0);
                        }
                    }
                }
                end = middle;
            }
        }
        let row = Row { name: rows[i].name.clone(), is_dir: rows[i].is_dir };
        let ghost placed_before = placed@;
        let ghost sorted_before = sorted@;
        placed.insert(p, key);
        sorted.insert(p, row);
        proof {
            let t = s.insert(p as int, e);
            order::lemma_order_extended(given.take(i as int), s, e, p as int);
            assert(given.take(i + 1) =~= given.take(i as int).push(e));
            assert(entries(sorted@) =~= entries(sorted_before).insert(p as int, e.1));
            assert(without_keys(t) =~= without_keys(s).insert(p as int, e.1));
            assert forall|k: int| 0 <= k < t.len() implies (#[trigger] placed@[k])@ == t[k].0 by {
                if k < p {
                    assert(placed@[k] == placed_before[k]);
                } else if k > p {
                    assert(placed@[k] == placed_before[k - 1]);
                }
            }
            s = t;
        }
        i += 1;
    }
    proof {
        assert(given.take(given.len() as int) =~= given);
        order::law_by_key_is_key_order(given);
        order::law_key_order_unique(given, order::by_key(given), s);
    }
    sorted
}

/// The entries in the order of their names, upper and lower case alike. Entries whose names
/// differ only in case keep their order.
pub fn sort_rows(rows: &Vec<Row>) -> (r: Vec<Row>)
    ensures
        is_name_order_of(entries(rows@), entries(r@)),
        entries(r@) == by_name(entries(rows@)),
{
    let mut keys: Vec<String> = Vec::new();
    let mut i: usize = 0;
    while i < rows.len()
        invariant
            i <= rows@.len(),
            keys@.len() == i,
            forall|k: int|
                0 <= k < keys@.len() ==> (#[trigger] keys@[k])@ == lowercase(rows@[k].name@),
        decreases rows@.len() - i,
    {
        keys.push(to_lowercase(rows[i].name.as_str()));
        i += 1;
    }
    proof {
        assert(keyed(rows@, keys@) =~= lowercased(entries(rows@)));
        law_by_name_is_name_order(entries(rows@));
    }
    order_rows(rows, &keys)
}

// ---------------------------------------------------------------------------
// Links
// ---------------------------------------------------------------------------
/// How the path of a directory stands in links and titles: with a slash in front, unless it
/// is the shared directory itself.
pub open spec fn base_prefix(platform: Platform, base: Seq<Seq<char>>) -> Seq<char> {
    if base.len() == 0 {
        Seq::empty()
    } else {
        "/"@ + path::shown(platform, base)
    }
}

/// What follows the name of a directory in links and labels.
pub open spec fn dir_mark(is_dir: bool) -> Seq<char> {
    if is_dir {
        "/"@
    } else {
        Seq::empty()
    }
}

/// The location of an entry of the directory `base`.
pub open spec fn entry_location(
    platform: Platform,
    base: Seq<Seq<char>>,
    entry: (Seq<char>, bool),
) -> Seq<char> {
    base_prefix(platform, base) + "/"@ + entry.0 + dir_mark(entry.1)
}

/// The location of the directory that holds the directory `base`.
pub open spec fn parent_location(platform: Platform, base: Seq<Seq<char>>) -> Seq<char> {
    let parent = base.drop_last();
    if parent.len() == 0 {
        "/"@
    } else {
        "/"@ + path::shown(platform, parent) + "/"@
    }
}

/// A link to a location.
pub open spec fn link(location: Seq<char>) -> Seq<char> {
    "/file?loc="@ + location
}

/// The values of one row of the page.
pub open spec fn item(href: Seq<char>, label: Seq<char>) -> template::Bindings {
    seq![("href"@, href), ("label"@, label)]
}

/// The row of an entry of the directory `base`.
pub open spec fn entry_item(
    platform: Platform,
    base: Seq<Seq<char>>,
    entry: (Seq<char>, bool),
) -> template::Bindings {
    item(link(entry_location(platform, base, entry)), entry.0 + dir_mark(entry.1))
}

/// The rows of the page: the way up, unless the directory is the shared one, and then the
/// entries as they come.
pub open spec fn listing_items(
    platform: Platform,
    base: Seq<Seq<char>>,
    sorted: Seq<(Seq<char>, bool)>,
) -> Seq<template::Bindings> {
    let up = if base.len() == 0 {
        Seq::empty()
    } else {
        seq![item(link(parent_location(platform, base)), ".."@)]
    };
    up + sorted.map_values(|entry: (Seq<char>, bool)| entry_item(platform, base, entry))
}

/// The title of the page of the directory `base`.
pub open spec fn listing_title(platform: Platform, base: Seq<Seq<char>>) -> Seq<char> {
    if base.len() == 0 {
        "Index of /"@
    } else {
        "Index of "@ + base_prefix(platform, base)
    }
}

/// The values of the page of the directory `base`.
pub open spec fn listing_vars(platform: Platform, base: Seq<Seq<char>>) -> template::Bindings {
    seq![("title"@, listing_title(platform, base)), ("heading"@, listing_title(platform, base))]
}

/// The sections of the page of the directory `base` with the given entries.
pub open spec fn listing_sections(
    platform: Platform,
    base: Seq<Seq<char>>,
    given: Seq<(Seq<char>, bool)>,
) -> template::SectionList {
    seq![("items"@, listing_items(platform, base, by_name(given)))]
}

/// The page of the directory `base` with the given entries.
pub open spec fn listing_page(
    listing: Seq<char>,
    platform: Platform,
    base: Seq<Seq<char>>,
    given: Seq<(Seq<char>, bool)>,
) -> Seq<char> {
    template::with_values(
        template::with_sections(listing, listing_sections(platform, base, given)),
        listing_vars(platform, base),
    )
}

proof fn lemma_keys_differ()
    ensures
        "href"@ != "label"@,
        "title"@ != "heading"@,
        "title"@ != "description"@,
        "heading"@ != "description"@,
{
    reveal_strlit("href");
    reveal_strlit("label");
    reveal_strlit("title");
    reveal_strlit("heading");
    reveal_strlit("description");
    assert("href"@.len() == 4);
    assert("label"@.len() == 5);
    assert("title"@.len() == 5);
    assert("heading"@.len() == 7);
    assert("description"@.len() == 11);
}

/// The row with the given link and label.
fn row_item(href: String, label: String) -> (r: Vars)
    ensures
        r@ == item(href@, label@),
{
    let mut vars = Vars::new();
    vars.insert("href", href);
    let ghost first = vars@;
    vars.insert("label", label);
    proof {
        lemma_keys_differ();
        assert(first =~= seq![("href"@, href@)]);
        assert(!template::has_key(first, "label"@)) by {
            assert(first[0].0 != "label"@);
        }
        assert(vars@ =~= item(href@, label@));
    }
    vars
}

/// What the page of the directory is rendered with.
pub fn listing_context(
    platform: Platform,
    relative: &RelativePath,
    rows: &Vec<Row>,
) -> (ctx: TemplateContext)
    ensures
        ctx.vars@ == listing_vars(platform, relative@),
        ctx.sections@ == listing_sections(platform, relative@, entries(rows@)),
{
    let ghost base = relative@;
    let ghost given = entries(rows@);
    let rows: Vec<Row> = sort_rows(rows);
    let ghost sorted = entries(rows@);
    let mut base_prefix: String = String::new();
    let at_top: bool = relative.is_empty();
    let mut items: Vec<Vars> = Vec::new();
    if !at_top {
        base_prefix.append("/");
        base_prefix.append(relative.text_on(platform).as_str());
        let parent = relative.parent();
        let mut parent_href: String = "/file?loc=/".to_owned();
        if !parent.is_empty() {
            parent_href.append(parent.text_on(platform).as_str());
            parent_href.append("/");
        }
        proof {
            reveal_strlit("/file?loc=/");
            reveal_strlit("/file?loc=");
            reveal_strlit("/");
            assert("/file?loc=/"@ =~= "/file?loc="@ + "/"@);
            assert(parent_href@ =~= link(parent_location(platform, base)));
        }
        items.push(row_item(parent_href, "..".to_owned()));
    }
    let ghost up = template::row_bindings(items@);
    proof {
        assert(base_prefix@ =~= self::base_prefix(platform, base));
        assert(up =~= listing_items(platform, base, Seq::empty()));
        assert(sorted.take(0) =~= Seq::empty());
    }
    let mut i: usize = 0;
    while i < rows.len()
        invariant
            i <= rows@.len(),
            sorted == entries(rows@),
            base == relative@,
            base_prefix@ == self::base_prefix(platform, base),
            template::row_bindings(items@) == listing_items(platform, base, sorted.take(i as int)),
        decreases rows@.len() - i,
    {
        let mut href: String = "/file?loc=".to_owned();
        href.append(base_prefix.as_str());
        href.append("/");
        href.append(rows[i].name.as_str());
        let mut label: String = rows[i].name.clone();
        if rows[i].is_dir {
            href.push('/');
            label.push('/');
        }
        let ghost before = items@;
        proof {
            reveal_strlit("/");
            let entry = sorted[i as int];
            assert(entry == rows@[i as int]@);
            assert(href@ =~= link(entry_location(platform, base, entry)));
            assert(label@ =~= entry.0 + dir_mark(entry.1));
        }
        let vars = row_item(href, label);
        items.push(vars);
        proof {
            let next = sorted.take(i + 1);
            assert(template::row_bindings(items@) =~= template::row_bindings(before).push(vars@));
            assert(listing_items(platform, base, next) =~= listing_items(
                platform,
                base,
                sorted.take(i as int),
            ).push(entry_item(platform, base, sorted[i as int])));
        }
        i += 1;
    }
    let mut page_title: String = "Index of ".to_owned();
    if at_top {
        page_title.append("/");
    } else {
        page_title.append(base_prefix.as_str());
    }
    let heading: String = page_title.clone();
    let mut ctx = TemplateContext::new();
    ctx.vars.insert("title", page_title);
    let ghost first = ctx.vars@;
    ctx.vars.insert("heading", heading);
    ctx.sections.insert("items", items);
    proof {
        lemma_keys_differ();
        reveal_strlit("Index of /");
        reveal_strlit("Index of ");
        reveal_strlit("/");
        assert("Index of /"@ =~= "Index of "@ + "/"@);
        assert(sorted.take(sorted.len() as int) =~= sorted);
        assert(first =~= seq![("title"@, listing_title(platform, base))]);
        assert(!template::has_key(first, "heading"@)) by {
            assert(first[0].0 != "heading"@);
        }
        assert(ctx.vars@ =~= listing_vars(platform, base));
        assert(ctx.sections@ =~= listing_sections(platform, base, given));
    }
    ctx
}

/// The page of the directory with the given entries.
pub fn render_directory_listing(
    templates: &Templates,
    platform: Platform,
    relative: &RelativePath,
    rows: &Vec<Row>,
) -> (r: Result<String, TemplateError>)
    requires
        template::sections_end(
            templates.listing@,
            listing_sections(platform, relative@, entries(rows@)),
        ),
    ensures
        r matches Ok(page) && page@ == listing_page(
            templates.listing@,
            platform,
            relative@,
            entries(rows@),
        ),
{
    let ctx = listing_context(platform, relative, rows);
    render_template(templates, "listing.html", &ctx)
}

/// The page of the directory with the given entries, or nothing where more than `steps`
/// sections have to be expanded for it. Names that hold tags of their own can keep that
/// from ever ending.
pub fn render_directory_listing_within(
    templates: &Templates,
    platform: Platform,
    relative: &RelativePath,
    rows: &Vec<Row>,
    steps: usize,
) -> (r: Option<Result<String, TemplateError>>)
    ensures
        r is Some <==> template::sections_end_within(
            templates.listing@,
            listing_sections(platform, relative@, entries(rows@)),
            steps as nat,
        ),
        r matches Some(result) ==> template::sections_end(
            templates.listing@,
            listing_sections(platform, relative@, entries(rows@)),
        ),
        r matches Some(result) ==> (result matches Ok(page) && page@ == listing_page(
            templates.listing@,
            platform,
            relative@,
            entries(rows@),
        )),
{
    let ctx = listing_context(platform, relative, rows);
    match render_sections_within(templates.listing.as_str(), &ctx.sections, steps) {
        Some(_) => Some(render_directory_listing(templates, platform, relative, rows)),
        None => None,
    }
}

// ---------------------------------------------------------------------------
// The page without a directory
// ---------------------------------------------------------------------------
/// The values of the page that only measures speed.
pub open spec fn speedtest_vars() -> template::Bindings {
    seq![
        ("title"@, "Speed Test"@),
        ("heading"@, "Speed Test"@),
        ("description"@, "点击右下角按钮开始测试当前连接下载速度。"@),
    ]
}

/// The page that only measures speed.
pub fn render_speedtest_only(templates: &Templates) -> (r: Result<String, TemplateError>)
    ensures
        r matches Ok(page) && page@ == template::with_values(
            templates.speedtest@,
            speedtest_vars(),
        ),
{
    let mut ctx = TemplateContext::new();
    ctx.vars.insert("title", "Speed Test".to_owned());
    let ghost first = ctx.vars@;
    ctx.vars.insert("heading", "Speed Test".to_owned());
    let ghost second = ctx.vars@;
    ctx.vars.insert(
        "description",
        "点击右下角按钮开始测试当前连接下载速度。".to_owned(),
    );
    proof {
        lemma_keys_differ();
        assert(first =~= seq![("title"@, "Speed Test"@)]);
        assert(!template::has_key(first, "heading"@)) by {
            assert(first[0].0 != "heading"@);
        }
        assert(second =~= seq![("title"@, "Speed Test"@), ("heading"@, "Speed Test"@)]);
        assert(!template::has_key(second, "description"@)) by {
            assert(second[0].0 != "description"@);
            assert(second[1].0 != "description"@);
        }
        assert(ctx.vars@ =~= speedtest_vars());
        reveal_strlit("speedtest.html");
        reveal_strlit("listing.html");
        assert("speedtest.html"@.len() != "listing.html"@.len());
    }
    render_template(templates, "speedtest.html", &ctx)
}

// ---------------------------------------------------------------------------
// Laws
// ---------------------------------------------------------------------------
/// Appending a slash to a path that leads down does not change where it leads.
proof fn lemma_trailing_slash(names: Seq<Seq<char>>)
    requires
        path::plain_names(names),
        names.len() > 0,
    ensures
        path::sanitized(path::joined(names) + "/"@) == Some(names),
{
    reveal_strlit("/");
    reveal_strlit("..");
    assert("/"@ =~= seq!['/']);
    let plain = path::joined(names);
    let marked = plain + "/"@;
    let empty = Seq::<char>::empty();
    let keep = |piece: Seq<char>| path::names_entry(piece);
    path::law_sanitized_of_joined(names);
    text::lemma_pieces_joined(plain, '/', empty);
    assert(plain + seq!['/'] + empty =~= marked);
    let parts = text::pieces(plain, '/');
    let more = text::pieces(marked, '/');
    assert(more =~= parts.push(empty));
    lists::lemma_filter_push(parts, empty, keep);
    path::lemma_joined_start(names);
    assert(marked[0] == plain[0]);
    assert(!more.contains(".."@)) by {
        assert forall|i: int| 0 <= i < more.len() implies #[trigger] more[i] != ".."@ by {
            if i < parts.len() {
                assert(parts.contains(parts[i]));
            }
        }
    }
}

/// A path that leads down with slashes does so as the platform shows it.
proof fn lemma_with_slashes(
    platform: Platform,
    p: Seq<char>,
    q: Seq<char>,
    names: Seq<Seq<char>>,
)
    requires
        path::plain_names_on(platform, names),
        path::sanitized(q) == Some(names),
        platform == Platform::Unix ==> p == q,
        platform == Platform::Windows ==> path::slashed(p) == q,
    ensures
        path::sanitized_on(platform, p) == Some(names),
{
    if platform == Platform::Windows {
        path::lemma_plain_on(platform, names);
        path::lemma_windows_leads_down(p, names);
    }
}

/// The location of an entry leads to that entry, once the link's query is decoded: it is let
/// through, and names the directory's path with the entry's name behind it. Names with
/// characters that mean something in a query stand in the link as they are, and what is decoded
/// from it may then be another location.
pub proof fn law_links_lead_to_entries(
    platform: Platform,
    base: Seq<Seq<char>>,
    entry: (Seq<char>, bool),
)
    requires
        path::plain_names_on(platform, base),
        path::plain_name_on(platform, entry.0),
    ensures
        path::normalized(entry_location(platform, base, entry)) matches Some(p)
            && path::sanitized_on(platform, p) == Some(base.push(entry.0)),
{
    reveal_strlit("/");
    assert("/"@ =~= seq!['/']);
    let mark = dir_mark(entry.1);
    let names = base.push(entry.0);
    assert(path::plain_names_on(platform, names)) by {
        assert forall|i: int| 0 <= i < names.len() implies path::plain_name_on(
            platform,
            #[trigger] names[i],
        ) by {
            if i < base.len() {
                assert(path::plain_name_on(platform, base[i]));
            }
        }
    }
    path::lemma_plain_on(platform, names);
    assert(names.drop_last() =~= base);
    let target = path::joined(names) + mark;
    if entry.1 {
        lemma_trailing_slash(names);
    } else {
        assert(target =~= path::joined(names));
        path::law_sanitized_of_joined(names);
    }
    let location = entry_location(platform, base, entry);
    let p = location.skip(1);
    assert(location =~= "/"@ + p);
    path::law_normalized_rooted(p);
    path::lemma_slashed_shown(platform, base);
    if platform == Platform::Windows {
        path::lemma_slashed_plain("/"@);
        path::lemma_slashed_plain(entry.0);
        path::lemma_slashed_plain(mark);
        path::lemma_slashed_concat(entry.0, mark);
        if base.len() == 0 {
            assert(p =~= entry.0 + mark);
            assert(target =~= entry.0 + mark);
        } else {
            let shown = path::shown(platform, base);
            path::lemma_slashed_concat(shown, "/"@);
            path::lemma_slashed_concat(shown + "/"@, entry.0 + mark);
            assert(p =~= shown + "/"@ + (entry.0 + mark));
            assert(target =~= path::joined(base) + "/"@ + (entry.0 + mark));
        }
    } else {
        assert(p =~= target);
    }
    lemma_with_slashes(platform, p, target, names);
}

/// The location of the way up leads to the directory that holds this one, once the link's query
/// is decoded. As with entries, that gives the location for names only that mean nothing in a
/// query.
pub proof fn law_way_up_leads_to_parent(platform: Platform, base: Seq<Seq<char>>)
    requires
        path::plain_names_on(platform, base),
        base.len() > 0,
    ensures
        path::normalized(parent_location(platform, base)) matches Some(p)
            && path::sanitized_on(platform, p) == Some(base.drop_last()),
{
    reveal_strlit("/");
    assert("/"@ =~= seq!['/']);
    let parent = base.drop_last();
    assert(path::plain_names_on(platform, parent)) by {
        assert forall|i: int| 0 <= i < parent.len() implies path::plain_name_on(
            platform,
            #[trigger] parent[i],
        ) by {
            assert(path::plain_name_on(platform, base[i]));
        }
    }
    path::lemma_plain_on(platform, parent);
    if parent.len() == 0 {
        let empty = Seq::<char>::empty();
        path::law_normalized_rooted(empty);
        assert("/"@ + empty =~= "/"@);
        path::law_sanitized_of_shown(platform, parent);
        assert(path::shown(platform, parent) =~= empty);
    } else {
        let shown = path::shown(platform, parent);
        let p = shown + "/"@;
        path::law_normalized_rooted(p);
        assert("/"@ + p =~= parent_location(platform, base));
        lemma_trailing_slash(parent);
        path::lemma_slashed_shown(platform, parent);
        if platform == Platform::Windows {
            path::lemma_slashed_plain("/"@);
            path::lemma_slashed_concat(shown, "/"@);
        }
        lemma_with_slashes(platform, p, path::joined(parent) + "/"@, parent);
    }
}

/// The entries of a page come in the order of their names, upper and lower case alike, and
/// names that differ only in case keep the order in which they were read.
pub proof fn law_by_name_is_name_order(given: Seq<(Seq<char>, bool)>)
    ensures
        is_name_order_of(given, by_name(given)),
{
    let s = order::by_key(lowercased(given));
    order::law_by_key_is_key_order(lowercased(given));
    lemma_keys_stay(given, s);
    lemma_name_order_is_key_order(given, by_name(given));
}

/// Putting entries into the order of names neither loses nor adds any.
proof fn lemma_order_keeps_entries(given: Seq<(Seq<char>, bool)>)
    ensures
        by_name(given).to_multiset() == given.to_multiset(),
        by_name(given).len() == given.len(),
{
    broadcast use vstd::seq_lib::group_to_multiset_ensures;

    let shown = by_name(given);
    law_by_name_is_name_order(given);
    assert forall|e: (Seq<char>, bool)| #[trigger]
        shown.to_multiset().count(e) == given.to_multiset().count(e) by {
        let key = lowercase(e.0);
        let like = |x: (Seq<char>, bool)| lowercase(x.0) == key;
        lists::lemma_filter_count(shown, like, e);
        lists::lemma_filter_count(given, like, e);
        assert(named_like(shown, key) == named_like(given, key));
    }
    assert(shown.to_multiset() =~= given.to_multiset());
    assert(shown.to_multiset().len() == shown.len());
    assert(given.to_multiset().len() == given.len());
}

/// A page shows every entry once, and the way up exactly where there is one.
pub proof fn law_page_shows_every_entry(
    platform: Platform,
    base: Seq<Seq<char>>,
    given: Seq<(Seq<char>, bool)>,
)
    ensures
        by_name(given).to_multiset() == given.to_multiset(),
        listing_items(platform, base, by_name(given)).len() == given.len() + (if base.len() == 0 {
            0int
        } else {
            1
        }),
{
    lemma_order_keeps_entries(given);
}

/// Texts without opening braces, one behind the other.
proof fn lemma_no_opening_concat(a: Seq<char>, b: Seq<char>)
    requires
        parts::no_opening(a),
        parts::no_opening(b),
    ensures
        parts::no_opening(a + b),
{
    let s = a + b;
    assert forall|i: int| 0 <= i < s.len() implies (#[trigger] s[i]) != '{' by {
        if i < a.len() {
            assert(s[i] == a[i]);
        } else {
            assert(s[i] == b[i - a.len()]);
        }
    }
}

/// Names without opening braces, joined.
proof fn lemma_joined_no_opening(names: Seq<Seq<char>>, separator: Seq<char>)
    requires
        forall|i: int| 0 <= i < names.len() ==> parts::no_opening(#[trigger] names[i]),
        parts::no_opening(separator),
    ensures
        parts::no_opening(path::joined_by(names, separator)),
    decreases names.len(),
{
    if names.len() > 1 {
        let front = names.drop_last();
        assert forall|i: int| 0 <= i < front.len() implies parts::no_opening(
            #[trigger] front[i],
        ) by {
            assert(front[i] == names[i]);
        }
        lemma_joined_no_opening(front, separator);
        assert(parts::no_opening(names[names.len() - 1]));
        lemma_no_opening_concat(path::joined_by(front, separator), separator);
        lemma_no_opening_concat(path::joined_by(front, separator) + separator, names.last());
    }
}

/// Names without opening braces, as the platform shows them.
proof fn lemma_shown_no_opening(platform: Platform, names: Seq<Seq<char>>)
    requires
        forall|i: int| 0 <= i < names.len() ==> parts::no_opening(#[trigger] names[i]),
    ensures
        parts::no_opening(path::shown(platform, names)),
{
    reveal_strlit("/");
    reveal_strlit("\\");
    lemma_joined_no_opening(names, "/"@);
    lemma_joined_no_opening(names, "\\"@);
}

/// The texts of a page's own have no braces.
proof fn lemma_own_texts()
    ensures
        parts::no_opening("/"@),
        parts::no_opening(".."@),
        parts::no_opening("/file?loc="@),
        parts::no_braces("href"@),
        parts::no_braces("label"@),
        parts::no_braces("title"@),
        parts::no_braces("heading"@),
        parts::no_braces("description"@),
        parts::no_braces("items"@),
        parts::no_opening("Index of /"@),
        parts::no_opening("Index of "@),
{
    reveal_strlit("/");
    reveal_strlit("..");
    reveal_strlit("/file?loc=");
    reveal_strlit("href");
    reveal_strlit("label");
    reveal_strlit("title");
    reveal_strlit("heading");
    reveal_strlit("description");
    reveal_strlit("items");
    reveal_strlit("Index of /");
    reveal_strlit("Index of ");
}

/// A row with a link and a label without opening braces is plain.
proof fn lemma_plain_item(href: Seq<char>, label: Seq<char>)
    requires
        parts::no_opening(href),
        parts::no_opening(label),
    ensures
        parts::plain_bindings(item(href, label)),
{
    lemma_own_texts();
    lemma_keys_differ();
}

/// The rows of a directory are plain where neither its path nor its entries have names with an
/// opening brace.
proof fn lemma_plain_items(
    platform: Platform,
    base: Seq<Seq<char>>,
    sorted: Seq<(Seq<char>, bool)>,
)
    requires
        forall|i: int| 0 <= i < base.len() ==> parts::no_opening(#[trigger] base[i]),
        forall|i: int| 0 <= i < sorted.len() ==> parts::no_opening((#[trigger] sorted[i]).0),
    ensures
        parts::plain_rows(listing_items(platform, base, sorted)),
        parts::plain_bindings(listing_vars(platform, base)),
{
    lemma_own_texts();
    lemma_keys_differ();
    lemma_shown_no_opening(platform, base);
    lemma_no_opening_concat("/"@, path::shown(platform, base));
    let prefix = base_prefix(platform, base);
    lemma_no_opening_concat(prefix, "/"@);
    lemma_no_opening_concat("Index of "@, prefix);
    let items = listing_items(platform, base, sorted);
    let skipped = items.len() - sorted.len();
    assert forall|i: int| 0 <= i < items.len() implies parts::plain_bindings(
        #[trigger] items[i],
    ) by {
        if i < skipped {
            let parent = base.drop_last();
            assert forall|k: int| 0 <= k < parent.len() implies parts::no_opening(
                #[trigger] parent[k],
            ) by {
                assert(parent[k] == base[k]);
            }
            lemma_shown_no_opening(platform, parent);
            lemma_no_opening_concat("/"@, path::shown(platform, parent));
            lemma_no_opening_concat("/"@ + path::shown(platform, parent), "/"@);
            lemma_no_opening_concat("/file?loc="@, parent_location(platform, base));
            lemma_plain_item(link(parent_location(platform, base)), ".."@);
        } else {
            let entry = sorted[i - skipped];
            assert(items[i] == entry_item(platform, base, entry));
            let mark = dir_mark(entry.1);
            lemma_no_opening_concat(prefix + "/"@, entry.0);
            lemma_no_opening_concat(prefix + "/"@ + entry.0, mark);
            lemma_no_opening_concat("/file?loc="@, entry_location(platform, base, entry));
            lemma_no_opening_concat(entry.0, mark);
            lemma_plain_item(link(entry_location(platform, base, entry)), entry.0 + mark);
        }
    }
}

/// The page of a directory is rendered part by part, where neither its path nor its entries have
/// names with an opening brace: what repeats is there once for the way up and once for each
/// entry, in the order of the names, with the link and the label in it; the title is in all the
/// rest. One section is expanded for it.
pub proof fn law_listing_rendered(
    before: Seq<parts::Part>,
    block: Seq<parts::Part>,
    after: Seq<parts::Part>,
    platform: Platform,
    base: Seq<Seq<char>>,
    given: Seq<(Seq<char>, bool)>,
)
    requires
        parts::plain_section(before, "items"@, block, after),
        forall|i: int| 0 <= i < base.len() ==> parts::no_opening(#[trigger] base[i]),
        forall|i: int| 0 <= i < given.len() ==> parts::no_opening((#[trigger] given[i]).0),
    ensures
        ({
            let listing = parts::section_template(before, "items"@, block, after);
            let rows = listing_items(platform, base, by_name(given));
            &&& template::sections_end_within(listing, listing_sections(platform, base, given), 1)
            &&& template::sections_end(listing, listing_sections(platform, base, given))
            &&& listing_page(listing, platform, base, given) == parts::written(
                parts::filled(
                    before + parts::repeated_parts(block, rows) + after,
                    listing_vars(platform, base),
                ),
            )
        }),
{
    let sorted = by_name(given);
    law_page_shows_every_entry(platform, base, given);
    assert forall|i: int| 0 <= i < sorted.len() implies parts::no_opening(
        (#[trigger] sorted[i]).0,
    ) by {
        broadcast use vstd::seq_lib::group_to_multiset_ensures;

        let e = sorted[i];
        assert(sorted.contains(e));
        assert(sorted.to_multiset().count(e) > 0);
        assert(given.to_multiset().count(e) > 0);
        assert(given.contains(e));
        let k = choose|k: int| 0 <= k < given.len() && given[k] == e;
        assert(parts::no_opening(given[k].0));
    }
    lemma_plain_items(platform, base, sorted);
    parts::law_page_rendered(
        before,
        "items"@,
        block,
        after,
        listing_items(platform, base, sorted),
        listing_vars(platform, base),
    );
}

/// The page that only measures speed is rendered part by part.
pub proof fn law_speedtest_rendered(page: Seq<parts::Part>)
    requires
        parts::plain_parts(page),
    ensures
        template::with_values(parts::written(page), speedtest_vars()) == parts::written(
            parts::filled(page, speedtest_vars()),
        ),
{
    lemma_own_texts();
    lemma_keys_differ();
    reveal_strlit("Speed Test");
    reveal_strlit("点击右下角按钮开始测试当前连接下载速度。");
    parts::law_values_put_in(page, speedtest_vars());
}

/// The entries of a page come in the order of the code points of their names' lower case: where
/// those of two names first differ, the earlier one has the smaller code point, and none comes
/// before a shorter one that it starts with.
pub proof fn law_names_by_code_points(given: Seq<(Seq<char>, bool)>, i: int, j: int, k: int)
    requires
        0 <= i < j < by_name(given).len(),
        0 <= k <= lowercase(by_name(given)[i].0).len(),
        k <= lowercase(by_name(given)[j].0).len(),
        forall|n: int|
            0 <= n < k ==> lowercase(by_name(given)[i].0)[n] == lowercase(by_name(given)[j].0)[n],
    ensures
        ({
            let x = lowercase(by_name(given)[i].0);
            let y = lowercase(by_name(given)[j].0);
            &&& k == y.len() ==> k == x.len()
            &&& k < x.len() && k < y.len() ==> (x[k] as int) <= (y[k] as int)
        }),
{
    law_by_name_is_name_order(given);
    let s = by_name(given);
    let x = lowercase(s[i].0);
    let y = lowercase(s[j].0);
    assert(text::text_le(x, y));
    if k == x.len() || k == y.len() || x[k] != y[k] {
        text::law_order_by_code_points(x, y, k);
    }
}

/// Names with the same lower case keep the order in which their entries were read.
pub proof fn law_same_names_keep_their_order(given: Seq<(Seq<char>, bool)>, key: Seq<char>)
    ensures
        by_name(given).filter(|e: (Seq<char>, bool)| lowercase(e.0) == key) == given.filter(
            |e: (Seq<char>, bool)| lowercase(e.0) == key,
        ),
{
    law_by_name_is_name_order(given);
    assert(named_like(by_name(given), key) == named_like(given, key));
}

/// The page without a directory has a title and a heading that name the test, and tells how to
/// start it, wherever its template has a place for them.
pub proof fn law_speedtest_page_says(page: Seq<parts::Part>)
    requires
        parts::plain_parts(page),
    ensures
        template::with_values(parts::written(page), speedtest_vars()) == parts::written(
            parts::filled(
                page,
                seq![
                    ("title"@, "Speed Test"@),
                    ("heading"@, "Speed Test"@),
                    ("description"@, "点击右下角按钮开始测试当前连接下载速度。"@),
                ],
            ),
        ),
{
    law_speedtest_rendered(page);
}

/// Each entry stands for its whole name and whether it is a directory, in its place.
pub proof fn law_entries_of_rows(rows: Seq<Row>, keys: Seq<String>, i: int)
    ensures
        entries(rows).len() == rows.len(),
        keyed(rows, keys).len() == rows.len(),
        0 <= i < rows.len() ==> entries(rows)[i] == (rows[i].name@, rows[i].is_dir),
        0 <= i < rows.len() ==> keyed(rows, keys)[i] == (
            keys[i]@,
            (rows[i].name@, rows[i].is_dir),
        ),
{
}

/// A page is its template with the rows of the directory in its section, and then with its title
/// in all that is there.
pub proof fn law_page_of_directory(
    listing: Seq<char>,
    platform: Platform,
    base: Seq<Seq<char>>,
    given: Seq<(Seq<char>, bool)>,
)
    ensures
        listing_page(listing, platform, base, given) == template::with_values(
            template::expanded(listing, "items"@, listing_items(platform, base, by_name(given))),
            listing_vars(platform, base),
        ),
{
    let sections = listing_sections(platform, base, given);
    assert(sections.drop_last() =~= Seq::empty());
    reveal_with_fuel(template::with_sections, 2);
}

} // verus!
