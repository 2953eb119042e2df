use gitsidian::render::{note_settings, render_to_html};

#[test]
fn rendering_makes_html() {
    assert_eq!(render_to_html("# Title\n\nSome *text*.\n"), "<h1>Title</h1>\n<p>Some <em>text</em>.</p>\n");
}

#[test]
fn rendering_changes_the_text() {
    let source = "plain words";
    assert_eq!(render_to_html(source), "<p>plain words</p>\n");
    assert_ne!(render_to_html(source), source);
}

#[test]
fn rendering_uses_the_extensions() {
    assert_eq!(render_to_html("~~gone~~\n"), "<p><del>gone</del></p>\n");
    assert_eq!(
        render_to_html("| a |\n|---|\n| b |\n"),
        "<table>\n<thead>\n<tr>\n<th>a</th>\n</tr>\n</thead>\n<tbody>\n<tr>\n<td>b</td>\n</tr>\n</tbody>\n</table>\n"
    );
    assert_eq!(
        render_to_html("see https://example.org\n"),
        "<p>see <a href=\"https://example.org\">https://example.org</a></p>\n"
    );
    assert_eq!(
        render_to_html("- [x] done\n"),
        "<ul>\n<li><input type=\"checkbox\" checked=\"\" disabled=\"\" /> done</li>\n</ul>\n"
    );
}

#[test]
fn rendering_skips_front_matter_and_keeps_raw_html() {
    assert_eq!(render_to_html("---\ntitle: x\n---\nbody\n"), "<p>body</p>\n");
    assert_eq!(render_to_html("<b>bold</b>\n"), "<p><b>bold</b></p>\n");
    assert_eq!(render_to_html("<div>x</div>\n"), "<div>x</div>\n");
}

#[test]
fn note_settings_are_all_on() {
    let settings = note_settings();
    assert!(settings.strikethrough);
    assert!(settings.table);
    assert!(settings.autolink);
    assert!(settings.tasklist);
    assert!(settings.footnotes);
    assert!(settings.raw_html);
    assert_eq!(settings.front_matter_delimiter, Some("---".to_string()));
}
