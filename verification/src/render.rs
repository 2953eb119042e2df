//! Rendering of a note's Markdown to HTML, which the `comrak` crate does.

use crate::parser::fence;
use crate::strings::optional_view;
use crate::text::to_string;
use vstd::prelude::*;

verus! {

/// The switches of the renderer that this library sets; every other switch
/// keeps the renderer's default.
#[derive(Debug, Clone)]
pub struct RenderSettings {
    /// `~struck~` text.
    pub strikethrough: bool,
    /// Tables.
    pub table: bool,
    /// Bare addresses become links.
    pub autolink: bool,
    /// `- [ ]` task items.
    pub tasklist: bool,
    /// Footnotes.
    pub footnotes: bool,
    /// The line that opens and closes a front-matter block, which is not
    /// rendered.
    pub front_matter_delimiter: Option<String>,
    /// Raw HTML and every link address are passed through as written.
    pub raw_html: bool,
}

/// The HTML that `comrak::markdown_to_html` makes of `markdown` when the
/// switches of its default options are set as given.
pub uninterp spec fn html_of(
    markdown: Seq<char>,
    strikethrough: bool,
    table: bool,
    autolink: bool,
    tasklist: bool,
    footnotes: bool,
    front_matter_delimiter: Option<Seq<char>>,
    raw_html: bool,
) -> Seq<char>;

/// Calls `comrak::markdown_to_html` on `markdown`, with the default options
/// in which the seven switches of `settings` are set. The result is the HTML
/// that `html_of` names: the renderer reads nothing but its arguments.
#[verifier::external_body]
fn markdown_to_html(markdown: &str, settings: &RenderSettings) -> (html: String)
    ensures
        html@ == html_of(
            markdown@,
            settings.strikethrough,
            settings.table,
            settings.autolink,
            settings.tasklist,
            settings.footnotes,
            optional_view(settings.front_matter_delimiter),
            settings.raw_html,
        ),
{
    let mut options = comrak::Options::default();
    options.extension.strikethrough = settings.strikethrough;
    options.extension.table = settings.table;
    options.extension.autolink = settings.autolink;
    options.extension.tasklist = settings.tasklist;
    options.extension.footnotes = settings.footnotes;
    options.extension.front_matter_delimiter = settings.front_matter_delimiter.clone();
    options.render.unsafe_ = settings.raw_html;
    comrak::markdown_to_html(markdown, &options)
}

/// The settings with which notes are rendered: strikethrough, tables,
/// autolinks, task lists and footnotes on, `---` as the front-matter
/// delimiter, raw HTML passed through.
pub fn note_settings() -> (r: RenderSettings)
    ensures
        r.strikethrough,
        r.table,
        r.autolink,
        r.tasklist,
        r.footnotes,
        optional_view(r.front_matter_delimiter) == Some(fence()),
        r.raw_html,
{
    let delimiter = vec!['-', '-', '-'];
    RenderSettings {
        strikethrough: true,
        table: true,
        autolink: true,
        tasklist: true,
        footnotes: true,
        front_matter_delimiter: Some(to_string(delimiter.as_slice())),
        raw_html: true,
    }
}

/// Renders the Markdown of a note to HTML, with the settings of
/// `note_settings`.
pub fn render_to_html(content: &str) -> (html: String)
    ensures
        html@ == html_of(content@, true, true, true, true, true, Some(fence()), true),
{
    let settings = note_settings();
    markdown_to_html(content, &settings)
}

} // verus!
