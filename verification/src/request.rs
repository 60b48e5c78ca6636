//! What the server answers, and what it has to find out first.
use vstd::prelude::*;

use crate::listing;
use crate::listing::{render_directory_listing_within, render_speedtest_only, Row};
use crate::path;
use crate::path::{normalize_loc, sanitize_path_on, Platform, RelativePath};
use crate::template;
use crate::template::Templates;
use crate::text;

verus! {

// ---------------------------------------------------------------------------
// Answers
// ---------------------------------------------------------------------------
/// An answer to a request.
pub enum Reply {
    /// Ask there instead.
    Redirect(String),
    /// A page.
    Html(String),
    /// A file that pages use.
    Asset { content_type: String, text: String },
    /// The request cannot be met.
    Failure { status: u16, text: String },
    /// Random data without end.
    Stream { content_type: String, cache_control: String },
}

/// What an answer says.
pub enum ReplyView {
    Redirect(Seq<char>),
    Html(Seq<char>),
    Asset { content_type: Seq<char>, text: Seq<char> },
    Failure { status: u16, text: Seq<char> },
    Stream { content_type: Seq<char>, cache_control: Seq<char> },
}

impl View for Reply {
    type V = ReplyView;

    open spec fn view(&self) -> ReplyView {
        match *self {
            Reply::Redirect(location) => ReplyView::Redirect(location@),
            Reply::Html(page) => ReplyView::Html(page@),
            Reply::Asset { content_type, text } => ReplyView::Asset {
                content_type: content_type@,
                text: text@,
            },
            Reply::Failure { status, text } => ReplyView::Failure { status, text: text@ },
            Reply::Stream { content_type, cache_control } => ReplyView::Stream {
                content_type: content_type@,
                cache_control: cache_control@,
            },
        }
    }
}

/// There is nothing there.
pub open spec fn not_found_reply() -> ReplyView {
    ReplyView::Failure { status: 404, text: "Not Found"@ }
}

/// Something went wrong here.
pub open spec fn server_error_reply() -> ReplyView {
    ReplyView::Failure { status: 500, text: "Internal Server Error"@ }
}

/// There is nothing there.
pub fn not_found() -> (r: Reply)
    ensures
        r@ == not_found_reply(),
{
    Reply::Failure { status: 404, text: "Not Found".to_owned() }
}

/// Something went wrong here.
pub fn server_error() -> (r: Reply)
    ensures
        r@ == server_error_reply(),
{
    Reply::Failure { status: 500, text: "Internal Server Error".to_owned() }
}

/// The answer at `/`: the shared directory is elsewhere.
pub fn redirect_root() -> (r: Reply)
    ensures
        r@ == ReplyView::Redirect("/file?loc=/"@),
{
    Reply::Redirect("/file?loc=/".to_owned())
}

/// The answer at `/sytle.css`.
pub fn handle_style_css(style_css: &str) -> (r: Reply)
    ensures
        r@ == (ReplyView::Asset { content_type: "text/css; charset=utf-8"@, text: style_css@ }),
{
    Reply::Asset { content_type: "text/css; charset=utf-8".to_owned(), text: style_css.to_owned() }
}

/// The answer at `/app.js`.
pub fn handle_app_js(app_js: &str) -> (r: Reply)
    ensures
        r@ == (ReplyView::Asset {
            content_type: "application/javascript; charset=utf-8"@,
            text: app_js@,
        }),
{
    Reply::Asset {
        content_type: "application/javascript; charset=utf-8".to_owned(),
        text: app_js.to_owned(),
    }
}

/// The answer at `/speedtest`: random data that nothing on the way may keep.
pub fn handle_speedtest() -> (r: Reply)
    ensures
        r@ == (ReplyView::Stream {
            content_type: "application/octet-stream"@,
            cache_control: "no-store, no-cache, must-revalidate, max-age=0"@,
        }),
{
    Reply::Stream {
        content_type: "application/octet-stream".to_owned(),
        cache_control: "no-store, no-cache, must-revalidate, max-age=0".to_owned(),
    }
}

// ---------------------------------------------------------------------------
// Requests for files
// ---------------------------------------------------------------------------
/// The next step on the way to an answer. Paths are below the shared directory.
pub enum Step {
    /// Give this answer.
    Answer(Reply),
    /// Find out what is at that path.
    Inspect(RelativePath),
    /// Read the entries of the directory at that path.
    List(RelativePath),
    /// Send the file at that path.
    Serve(RelativePath),
}

/// What a step asks for.
pub enum StepView {
    Answer(ReplyView),
    Inspect(Seq<Seq<char>>),
    List(Seq<Seq<char>>),
    Serve(Seq<Seq<char>>),
}

impl View for Step {
    type V = StepView;

    open spec fn view(&self) -> StepView {
        match *self {
            Step::Answer(reply) => StepView::Answer(reply@),
            Step::Inspect(relative) => StepView::Inspect(relative@),
            Step::List(relative) => StepView::List(relative@),
            Step::Serve(relative) => StepView::Serve(relative@),
        }
    }
}

/// The first step for a path below the shared directory, if one is shared.
pub open spec fn path_step(platform: Platform, has_root: bool, p: Seq<char>) -> StepView {
    if !has_root {
        StepView::Answer(not_found_reply())
    } else {
        match path::sanitized_on(platform, p) {
            Some(names) => StepView::Inspect(names),
            None => StepView::Answer(not_found_reply()),
        }
    }
}

/// The first step for a path below the shared directory, if one is shared.
pub fn handle_path_impl(platform: Platform, has_root: bool, path: &str) -> (r: Step)
    ensures
        r@ == path_step(platform, has_root, path@),
{
    if !has_root {
        return Step::Answer(not_found());
    }
    match sanitize_path_on(platform, path) {
        Some(relative) => Step::Inspect(relative),
        None => Step::Answer(not_found()),
    }
}

/// The page that only measures speed.
pub open spec fn speedtest_reply(speedtest: Seq<char>) -> ReplyView {
    ReplyView::Html(template::with_values(speedtest, listing::speedtest_vars()))
}

/// The location that a request names: the shared directory, where it names none.
pub open spec fn asked_location(loc: Option<Seq<char>>) -> Seq<char> {
    match loc {
        Some(l) => l,
        None => "/"@,
    }
}

/// The text behind an optional reference to it.
pub open spec fn given_text(loc: Option<&str>) -> Option<Seq<char>> {
    match loc {
        Some(l) => Some(l@),
        None => None,
    }
}

/// The first step for a request at `/file`.
pub open spec fn file_step(
    speedtest: Seq<char>,
    platform: Platform,
    has_root: bool,
    loc: Option<Seq<char>>,
) -> StepView {
    if !has_root {
        StepView::Answer(speedtest_reply(speedtest))
    } else {
        match path::normalized(asked_location(loc)) {
            Some(p) => path_step(platform, true, p),
            None => StepView::Answer(not_found_reply()),
        }
    }
}

/// The first step for a request at `/file`, whose parameter `loc` names a location.
pub fn handle_file(
    templates: &Templates,
    platform: Platform,
    has_root: bool,
    loc: Option<&str>,
) -> (r: Step)
    ensures
        r@ == file_step(templates.speedtest@, platform, has_root, given_text(loc)),
{
    if !has_root {
        return match render_speedtest_only(templates) {
            Ok(html) => Step::Answer(Reply::Html(html)),
            Err(_) => Step::Answer(server_error()),
        };
    }
    let location: &str = match loc {
        Some(l) => l,
        None => "/",
    };
    match normalize_loc(location) {
        Some(path) => handle_path_impl(platform, has_root, path.as_str()),
        None => Step::Answer(not_found()),
    }
}

/// What is at a path.
#[derive(Clone, Copy, Debug, PartialEq, Eq, Structural)]
pub enum Found {
    /// Nothing that can be looked at.
    Nothing,
    /// A directory.
    Directory,
    /// Anything else.
    File,
}

/// The step after a path was looked at: directories are listed, files are sent.
pub fn after_inspection(relative: RelativePath, found: Found) -> (r: Step)
    ensures
        r@ == (match found {
            Found::Nothing => StepView::Answer(not_found_reply()),
            Found::Directory => StepView::List(relative@),
            Found::File => StepView::Serve(relative@),
        }),
{
    match found {
        Found::Nothing => Step::Answer(not_found()),
        Found::Directory => Step::List(relative),
        Found::File => Step::Serve(relative),
    }
}

/// The answer after a directory was read, if it could be; nothing, where more than `steps`
/// sections have to be expanded for its page.
pub fn after_listing(
    templates: &Templates,
    platform: Platform,
    relative: &RelativePath,
    rows: Option<&Vec<Row>>,
    steps: usize,
) -> (r: Option<Reply>)
    ensures
        match rows {
            None => r matches Some(reply) && reply@ == server_error_reply(),
            Some(rows) => {
                let sections = listing::listing_sections(
                    platform,
                    relative@,
                    listing::entries(rows@),
                );
                let ends = template::sections_end_within(
                    templates.listing@,
                    sections,
                    steps as nat,
                );
                &&& r is Some <==> ends
                &&& r matches Some(reply) ==> reply@ == ReplyView::Html(
                    listing::listing_page(
                        templates.listing@,
                        platform,
                        relative@,
                        listing::entries(rows@),
                    ),
                )
            },
        },
{
    match rows {
        None => Some(server_error()),
        Some(rows) => match render_directory_listing_within(
            templates,
            platform,
            relative,
            rows,
            steps,
        ) {
            None => None,
            Some(Ok(html)) => Some(Reply::Html(html)),
            Some(Err(_)) => Some(server_error()),
        },
    }
}

/// The answer in place of a file, where sending it failed.
pub fn after_serving(sent: bool) -> (r: Option<Reply>)
    ensures
        match r {
            Some(reply) => !sent && reply@ == server_error_reply(),
            None => sent,
        },
{
    if sent {
        None
    } else {
        Some(server_error())
    }
}

// ---------------------------------------------------------------------------
// Laws
// ---------------------------------------------------------------------------
/// A location that climbs to a parent directory is answered at once with 404: nothing is
/// looked up for it.
pub proof fn law_climbing_is_not_found(
    speedtest: Seq<char>,
    platform: Platform,
    before: Seq<char>,
    after: Seq<char>,
)
    requires
        before.len() == 0 || path::is_separator(platform, before.last()),
        after.len() == 0 || path::is_separator(platform, after[0]),
    ensures
        file_step(speedtest, platform, true, Some("/"@ + (before + ".."@ + after)))
            == StepView::Answer(not_found_reply()),
{
    match platform {
        Platform::Unix => path::law_climbing_refused(before, after),
        Platform::Windows => path::law_windows_climbing_refused(before, after),
    }
    path::law_normalized_rooted(before + ".."@ + after);
}

/// A location that starts at the root of the file system is answered at once with 404.
pub proof fn law_absolute_is_not_found(
    speedtest: Seq<char>,
    platform: Platform,
    path: Seq<char>,
)
    requires
        path.len() > 0,
        path::is_separator(platform, path[0]),
    ensures
        file_step(speedtest, platform, true, Some("/"@ + path)) == StepView::Answer(
            not_found_reply(),
        ),
{
    if platform == Platform::Windows {
        path::law_windows_absolute_refused(path);
    }
    path::law_normalized_rooted(path);
}

/// On Windows, a location that goes to a drive anywhere is answered at once with 404.
pub proof fn law_drive_is_not_found(speedtest: Seq<char>, before: Seq<char>, drive: Seq<char>)
    requires
        before.len() == 0 || path::is_separator(Platform::Windows, before.last()),
        path::at_drive(drive),
    ensures
        file_step(speedtest, Platform::Windows, true, Some("/"@ + (before + drive)))
            == StepView::Answer(not_found_reply()),
{
    path::law_windows_drive_refused(before, drive);
    path::law_normalized_rooted(before + drive);
}

/// A location without a leading slash is answered with 404, unless it is empty.
pub proof fn law_unrooted_is_not_found(
    speedtest: Seq<char>,
    platform: Platform,
    loc: Seq<char>,
)
    requires
        loc.len() > 0,
        loc[0] != '/',
    ensures
        file_step(speedtest, platform, true, Some(loc)) == StepView::Answer(not_found_reply()),
{
}

/// Whatever is looked up for a request lies below the shared directory: nothing but names of
/// entries are followed from there. With slashes, the full path continues the directory's and
/// never climbs after it; on Windows, what is appended to the directory's path starts neither
/// with a separator nor at a drive, and never climbs.
pub proof fn law_lookups_stay_below(
    speedtest: Seq<char>,
    platform: Platform,
    has_root: bool,
    loc: Option<Seq<char>>,
    root: Seq<char>,
)
    ensures
        file_step(speedtest, platform, has_root, loc) matches StepView::Inspect(names) ==> {
            let tail = path::shown(platform, names);
            &&& path::plain_names_on(platform, names)
            &&& match platform {
                Platform::Unix => {
                    let full = path::joined_to(root, tail);
                    &&& root.len() <= full.len()
                    &&& full.take(root.len() as int) == root
                    &&& !text::pieces(full.skip(root.len() as int), '/').contains(".."@)
                },
                Platform::Windows => {
                    &&& tail.len() > 0 ==> !path::is_separator(platform, tail[0])
                    &&& !path::at_drive(tail)
                    &&& !text::pieces(path::slashed(tail), '/').contains(".."@)
                },
            }
        },
        !(file_step(speedtest, platform, has_root, loc) is List),
        !(file_step(speedtest, platform, has_root, loc) is Serve),
{
    if has_root {
        if let Some(p) = path::normalized(asked_location(loc)) {
            if path::sanitized_on(platform, p) is Some {
                path::law_sanitized_on_leads_down(platform, p);
                match platform {
                    Platform::Unix => path::law_stays_below(root, p),
                    Platform::Windows => path::law_windows_stays_below(p),
                }
            }
        }
    }
}

/// Where no directory is shared, every request for a file is answered with the page that only
/// measures speed.
pub proof fn law_nothing_shared(
    speedtest: Seq<char>,
    platform: Platform,
    loc: Option<Seq<char>>,
)
    ensures
        file_step(speedtest, platform, false, loc) == StepView::Answer(speedtest_reply(speedtest)),
{
}

/// The link to `/`, a request without a location and one with an empty location all lead to
/// the shared directory itself.
pub proof fn law_top_is_shared_directory(speedtest: Seq<char>, platform: Platform)
    ensures
        "/file?loc=/"@ == listing::link("/"@),
        file_step(speedtest, platform, true, Some("/"@)) == StepView::Inspect(Seq::empty()),
        file_step(speedtest, platform, true, Some(Seq::empty())) == StepView::Inspect(
            Seq::empty(),
        ),
        file_step(speedtest, platform, true, None) == StepView::Inspect(Seq::empty()),
{
    reveal_strlit("/file?loc=/");
    reveal_strlit("/file?loc=");
    reveal_strlit("/");
    assert("/file?loc=/"@ =~= "/file?loc="@ + "/"@);
    let top = Seq::<Seq<char>>::empty();
    path::law_sanitized_of_shown(platform, top);
    assert(path::shown(platform, top) =~= Seq::<char>::empty());
    path::law_normalized_rooted(Seq::empty());
    assert("/"@ + Seq::<char>::empty() =~= "/"@);
}

/// Browsing works, once a link's query is decoded to the location that it was made with: the
/// location behind an entry of a page leads to that entry, and the way up leads to the directory
/// that holds the page's. A name with characters that mean something in a query, such as `&`,
/// `#`, `%` or `+`, stands in its link as it is, and may be decoded to another location.
pub proof fn law_browsing(
    speedtest: Seq<char>,
    platform: Platform,
    base: Seq<Seq<char>>,
    entry: (Seq<char>, bool),
)
    requires
        path::plain_names_on(platform, base),
        path::plain_name_on(platform, entry.0),
    ensures
        file_step(speedtest, platform, true, Some(listing::entry_location(platform, base, entry)))
            == StepView::Inspect(base.push(entry.0)),
        base.len() > 0 ==> file_step(
            speedtest,
            platform,
            true,
            Some(listing::parent_location(platform, base)),
        ) == StepView::Inspect(base.drop_last()),
{
    listing::law_links_lead_to_entries(platform, base, entry);
    if base.len() > 0 {
        listing::law_way_up_leads_to_parent(platform, base);
    }
}

/// Every entry of a directory has a row of its own on its page, in order and behind the way up:
/// the row's link is one to a location that leads to the entry by its whole name, and its label is
/// the whole name, with a slash behind it exactly for directories.
pub proof fn law_every_entry_has_its_row(
    speedtest: Seq<char>,
    platform: Platform,
    base: Seq<Seq<char>>,
    sorted: Seq<(Seq<char>, bool)>,
    k: int,
)
    requires
        path::plain_names_on(platform, base),
        0 <= k < sorted.len(),
        path::plain_name_on(platform, sorted[k].0),
    ensures
        ({
            let rows = listing::listing_items(platform, base, sorted);
            let up: int = if base.len() == 0 {
                0
            } else {
                1
            };
            let row = rows[up + k];
            let name = sorted[k].0;
            &&& rows.len() == up + sorted.len()
            &&& row.len() == 2
            &&& row[0].0 == "href"@
            &&& row[1].0 == "label"@
            &&& row[1].1 == (if sorted[k].1 {
                name.push('/')
            } else {
                name
            })
            &&& exists|loc: Seq<char>|
                {
                    &&& row[0].1 == "/file?loc="@ + loc
                    &&& #[trigger] file_step(speedtest, platform, true, Some(loc))
                        == StepView::Inspect(base.push(name))
                    &&& sorted[k].1 <==> loc.last() == '/'
                }
        }),
{
    reveal_strlit("/");
    let entry = sorted[k];
    let rows = listing::listing_items(platform, base, sorted);
    let loc = listing::entry_location(platform, base, entry);
    listing::law_links_lead_to_entries(platform, base, entry);
    assert(entry.0 + listing::dir_mark(true) =~= entry.0.push('/'));
    assert(entry.0 + listing::dir_mark(false) =~= entry.0);
    assert(file_step(speedtest, platform, true, Some(loc)) == StepView::Inspect(
        base.push(entry.0),
    ));
    if !entry.1 {
        assert(path::plain_name(entry.0));
        assert(loc.last() == entry.0.last());
        assert(entry.0[entry.0.len() - 1] != '/');
    }
}

/// The label of an entry's row is its whole name whatever the name is, and its link ends in it.
pub proof fn law_every_row_shows_its_name(
    platform: Platform,
    base: Seq<Seq<char>>,
    sorted: Seq<(Seq<char>, bool)>,
    k: int,
)
    requires
        0 <= k < sorted.len(),
    ensures
        ({
            let row = listing::listing_items(platform, base, sorted)[(if base.len() == 0 {
                0int
            } else {
                1int
            }) + k];
            let shown = if sorted[k].1 {
                sorted[k].0.push('/')
            } else {
                sorted[k].0
            };
            &&& row[1] == ("label"@, shown)
            &&& row[0].0 == "href"@
            &&& row[0].1 == "/file?loc=/"@ + (if base.len() == 0 {
                Seq::empty()
            } else {
                path::shown(platform, base).push('/')
            }) + shown
        }),
{
    reveal_strlit("/");
    reveal_strlit("/file?loc=");
    reveal_strlit("/file?loc=/");
    let entry = sorted[k];
    let loc = listing::entry_location(platform, base, entry);
    let shown = if entry.1 {
        entry.0.push('/')
    } else {
        entry.0
    };
    assert(entry.0 + listing::dir_mark(entry.1) =~= shown);
    let front = if base.len() == 0 {
        Seq::empty()
    } else {
        path::shown(platform, base).push('/')
    };
    assert("/file?loc="@ + loc =~= "/file?loc=/"@ + front + shown);
}

/// The way up is the first row of every page but that of the shared directory: its label is two
/// dots, and its link is one to a location that leads to the directory above.
pub proof fn law_way_up_has_its_row(
    speedtest: Seq<char>,
    platform: Platform,
    base: Seq<Seq<char>>,
    sorted: Seq<(Seq<char>, bool)>,
)
    requires
        path::plain_names_on(platform, base),
        base.len() > 0,
    ensures
        ({
            let row = listing::listing_items(platform, base, sorted)[0];
            &&& row.len() == 2
            &&& row[0].0 == "href"@
            &&& row[1] == ("label"@, seq!['.', '.'])
            &&& exists|loc: Seq<char>|
                {
                    &&& row[0].1 == "/file?loc="@ + loc
                    &&& #[trigger] file_step(speedtest, platform, true, Some(loc))
                        == StepView::Inspect(base.drop_last())
                }
        }),
{
    reveal_strlit("..");
    assert(".."@ =~= seq!['.', '.']);
    let loc = listing::parent_location(platform, base);
    listing::law_way_up_leads_to_parent(platform, base);
    assert(file_step(speedtest, platform, true, Some(loc)) == StepView::Inspect(
        base.drop_last(),
    ));
}

/// The title and the heading of a page both name the directory: `Index of /` and then its path.
pub proof fn law_page_names_its_directory(platform: Platform, base: Seq<Seq<char>>)
    ensures
        listing::listing_vars(platform, base) == seq![
            ("title"@, "Index of /"@ + path::shown(platform, base)),
            ("heading"@, "Index of /"@ + path::shown(platform, base)),
        ],
{
    reveal_strlit("/");
    reveal_strlit("Index of ");
    reveal_strlit("Index of /");
    assert(path::shown(platform, Seq::empty()) =~= Seq::<char>::empty());
    if base.len() == 0 {
        assert(base =~= Seq::empty());
    }
    assert(listing::listing_title(platform, base) =~= "Index of /"@ + path::shown(platform, base));
}

/// What a request for a file is answered with at once, and what is looked up for it: without a
/// shared directory the speed page; else 404 for a location that names no path or a path that does
/// not lead down, and a lookup of all the names along any other. A request without a location is
/// one for the shared directory.
pub proof fn law_requests_answered_exactly(
    speedtest: Seq<char>,
    platform: Platform,
    has_root: bool,
    loc: Option<Seq<char>>,
)
    ensures
        ({
            let refused = StepView::Answer(
                ReplyView::Failure { status: 404, text: "Not Found"@ },
            );
            let asked = if loc is None {
                seq!['/']
            } else {
                loc->0
            };
            file_step(speedtest, platform, has_root, loc) == (if !has_root {
                StepView::Answer(
                    ReplyView::Html(template::with_values(speedtest, listing::speedtest_vars())),
                )
            } else if asked.len() > 0 && asked[0] != '/' {
                refused
            } else {
                let p = if asked.len() == 0 {
                    asked
                } else {
                    asked.skip(1)
                };
                match path::sanitized_on(platform, p) {
                    Some(names) => StepView::Inspect(names),
                    None => refused,
                }
            })
        }),
        path_step(platform, false, asked_location(loc)) == StepView::Answer(
            ReplyView::Failure { status: 404, text: "Not Found"@ },
        ),
        server_error_reply() == (ReplyView::Failure { status: 500, text: "Internal Server Error"@ }),
{
    reveal_strlit("/");
    assert("/"@ =~= seq!['/']);
}

/// A location that was given is taken whole.
pub proof fn law_location_taken_whole(loc: &str)
    ensures
        given_text(Some(loc)) == Some(loc@),
        given_text(None) is None,
{
}

/// An answer says what it holds, whole.
pub proof fn law_answers_say_what_they_hold(a: String, b: String, status: u16)
    ensures
        Reply::Redirect(a)@ == ReplyView::Redirect(a@),
        Reply::Html(a)@ == ReplyView::Html(a@),
        (Reply::Asset { content_type: a, text: b })@ == (ReplyView::Asset {
            content_type: a@,
            text: b@,
        }),
        (Reply::Failure { status, text: a })@ == (ReplyView::Failure { status, text: a@ }),
        (Reply::Stream { content_type: a, cache_control: b })@ == (ReplyView::Stream {
            content_type: a@,
            cache_control: b@,
        }),
{
}

/// A step asks for what it holds, whole.
pub proof fn law_steps_ask_for_what_they_hold(reply: Reply, relative: RelativePath)
    ensures
        Step::Answer(reply)@ == StepView::Answer(reply@),
        Step::Inspect(relative)@ == StepView::Inspect(relative@),
        Step::List(relative)@ == StepView::List(relative@),
        Step::Serve(relative)@ == StepView::Serve(relative@),
{
}

} // verus!
