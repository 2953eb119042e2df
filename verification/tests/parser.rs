use gitsidian::parser::{
    extract_frontmatter, extract_inline_tags, extract_wikilinks, parse_note, Frontmatter,
};

fn strings(items: &[&str]) -> Vec<String> {
    items.iter().map(|s| s.to_string()).collect()
}

#[test]
fn test_extract_wikilinks() {
    let content = "Hello [[World]] and [[Another Note|display]]";
    let parsed = parse_note(content);
    assert_eq!(parsed.links, vec!["World", "Another Note"]);
}

#[test]
fn test_extract_frontmatter() {
    let content = "---\ntitle: My Note\ntags: [rust, tauri]\n---\n\nContent here";
    let parsed = parse_note(content);
    assert_eq!(parsed.frontmatter.get("title"), Some(&"My Note".to_string()));
    assert!(parsed.tags.contains(&"rust".to_string()));
    assert!(parsed.tags.contains(&"tauri".to_string()));
}

#[test]
fn test_extract_inline_tags() {
    let content = "Hello #world and #rust-lang are great";
    let parsed = parse_note(content);
    assert!(parsed.tags.contains(&"world".to_string()));
    assert!(parsed.tags.contains(&"rust-lang".to_string()));
}

#[test]
fn parse_of_plain_text_is_empty() {
    let parsed = parse_note("just some words, nothing else");
    assert!(parsed.links.is_empty());
    assert!(parsed.tags.is_empty());
    assert!(parsed.frontmatter.is_empty());
    assert_eq!(parsed.frontmatter.len(), 0);
}

#[test]
fn parse_of_empty_text_is_empty() {
    let parsed = parse_note("");
    assert!(parsed.links.is_empty());
    assert!(parsed.tags.is_empty());
    assert!(parsed.frontmatter.is_empty());
}

#[test]
fn links_keep_order_and_repetitions() {
    let parsed = parse_note("[[b]] then [[a]] then [[b]]");
    assert_eq!(parsed.links, strings(&["b", "a", "b"]));
}

#[test]
fn link_display_text_is_dropped_and_target_trimmed() {
    let parsed = parse_note("see [[  Some Page  | shown | more ]]");
    assert_eq!(parsed.links, strings(&["Some Page"]));
}

#[test]
fn unterminated_link_yields_nothing() {
    let parsed = parse_note("before [[broken link and [[also]] not closed");
    assert_eq!(parsed.links, strings(&["broken link and [[also"]));
    let parsed = parse_note("before [[never closed ] at all");
    assert!(parsed.links.is_empty());
}

#[test]
fn unterminated_link_swallows_the_rest() {
    let parsed = parse_note("[[a]] [[open");
    assert_eq!(parsed.links, strings(&["a"]));
}

#[test]
fn empty_and_blank_links_are_dropped() {
    let parsed = parse_note("[[]] [[   ]] [[|shown]] [[x]]");
    assert_eq!(parsed.links, strings(&["x"]));
}

#[test]
fn single_bracket_inside_link_is_kept() {
    let parsed = parse_note("[[a]b]]");
    assert_eq!(parsed.links, strings(&["a]b"]));
    let parsed = parse_note("[[[a]]");
    assert_eq!(parsed.links, strings(&["[a"]));
    let parsed = parse_note("[x] [[y]]]");
    assert_eq!(parsed.links, strings(&["y"]));
}

#[test]
fn links_with_characters_beyond_ascii() {
    let parsed = parse_note("voir [[Écriture créative|texte]] et [[日本語]]");
    assert_eq!(parsed.links, strings(&["Écriture créative", "日本語"]));
}

#[test]
fn frontmatter_scenario_of_title_and_tags() {
    let parsed = parse_note("---\ntitle: My Note\ntags: [rust, tauri]\n---\n\nBody");
    assert_eq!(parsed.frontmatter.get("title"), Some(&"My Note".to_string()));
    assert_eq!(parsed.tags, strings(&["rust", "tauri"]));
    assert_eq!(parsed.frontmatter.get("tags"), None);
    assert_eq!(parsed.frontmatter.len(), 1);
    assert_eq!(parsed.frontmatter.key_at(0), "title");
    assert_eq!(parsed.frontmatter.value_at(0), "My Note");
}

#[test]
fn frontmatter_after_leading_white_space() {
    let parsed = parse_note("\n  \t---\nkey: value\n---\n");
    assert_eq!(parsed.frontmatter.get("key"), Some(&"value".to_string()));
}

#[test]
fn frontmatter_skips_comments_blank_lines_and_lines_without_colon() {
    let parsed = parse_note("---\n# a comment: here\n\n   \nno colon here\na: 1\n---\n");
    assert_eq!(parsed.frontmatter.len(), 1);
    assert_eq!(parsed.frontmatter.get("a"), Some(&"1".to_string()));
}

#[test]
fn frontmatter_value_keeps_later_colons() {
    let parsed = parse_note("---\nurl: https://example.org/a:b\n---\n");
    assert_eq!(parsed.frontmatter.get("url"), Some(&"https://example.org/a:b".to_string()));
}

#[test]
fn frontmatter_later_key_wins() {
    let parsed = parse_note("---\na: 1\nb: 2\na: 3\n---\n");
    assert_eq!(parsed.frontmatter.len(), 2);
    assert_eq!(parsed.frontmatter.get("a"), Some(&"3".to_string()));
    assert_eq!(parsed.frontmatter.key_at(0), "a");
    assert_eq!(parsed.frontmatter.key_at(1), "b");
}

#[test]
fn frontmatter_with_carriage_returns() {
    let parsed = parse_note("---\r\ntitle: T\r\ntags: [x]\r\n---\r\nbody #y");
    assert_eq!(parsed.frontmatter.get("title"), Some(&"T".to_string()));
    assert_eq!(parsed.tags, strings(&["x", "y"]));
}

#[test]
fn frontmatter_empty_key_and_value() {
    let parsed = parse_note("---\n: lonely\nbare:\n---\n");
    assert_eq!(parsed.frontmatter.get(""), Some(&"lonely".to_string()));
    assert_eq!(parsed.frontmatter.get("bare"), Some(&"".to_string()));
}

#[test]
fn frontmatter_tags_quoted_and_padded() {
    let parsed = parse_note("---\ntags: [ \"a b\" , 'c', , d ]\n---\n");
    assert_eq!(parsed.tags, strings(&["a b", "c", "d"]));
}

#[test]
fn frontmatter_tags_without_brackets() {
    let parsed = parse_note("---\ntags: one, two\n---\n");
    assert_eq!(parsed.tags, strings(&["one", "two"]));
}

#[test]
fn frontmatter_tags_nested_brackets_are_stripped() {
    let parsed = parse_note("---\ntags: [[x, y]]\n---\n");
    assert_eq!(parsed.tags, strings(&["x", "y"]));
}

#[test]
fn frontmatter_tags_are_listed_once() {
    let parsed = parse_note("---\ntags: [a, b, a]\n---\n#b #c");
    assert_eq!(parsed.tags, strings(&["a", "b", "c"]));
}

#[test]
fn frontmatter_without_closing_line_yields_no_field() {
    let text = "---\ntitle: lost\ntags: [gone]\n\nbody with #tag";
    let parsed = parse_note(text);
    assert!(parsed.frontmatter.is_empty());
    assert_eq!(parsed.tags, strings(&["tag"]));
}

#[test]
fn unclosed_frontmatter_is_scanned_as_body() {
    let parsed = parse_note("---\n#heading: x\n#other");
    assert!(parsed.frontmatter.is_empty());
    assert_eq!(parsed.tags, strings(&["heading", "other"]));
}

#[test]
fn closed_frontmatter_is_not_scanned_for_inline_tags() {
    let parsed = parse_note("---\nnote: has #inside\n---\nbody #outside");
    assert_eq!(parsed.tags, strings(&["outside"]));
    assert_eq!(parsed.frontmatter.get("note"), Some(&"has #inside".to_string()));
}

#[test]
fn fence_needs_not_end_its_line() {
    let parsed = parse_note("---title: x\n---more\n#t");
    assert_eq!(parsed.frontmatter.get("title"), Some(&"x".to_string()));
    assert_eq!(parsed.tags, strings(&["t"]));
}

#[test]
fn inline_tag_scenario() {
    let parsed = parse_note("Hello #world and #rust-lang are great");
    assert_eq!(parsed.tags, strings(&["world", "rust-lang"]));
}

#[test]
fn lone_hash_is_no_tag() {
    let parsed = parse_note("a # b ## c #");
    assert!(parsed.tags.is_empty());
}

#[test]
fn inline_tag_loses_trailing_punctuation_only() {
    let parsed = parse_note("#done. #why?! #a.b, (#paren) #path/to_x-y; ##double #!");
    assert_eq!(parsed.tags, strings(&["done", "why", "a.b", "path/to_x-y", "double"]));
}

#[test]
fn inline_tags_are_listed_once() {
    let parsed = parse_note("#a #b #a #b. #c");
    assert_eq!(parsed.tags, strings(&["a", "b", "c"]));
}

#[test]
fn inline_tags_split_at_any_white_space() {
    let parsed = parse_note("#one\t#two\n#three\u{00A0}#four\u{3000}#five");
    assert_eq!(parsed.tags, strings(&["one", "two", "three", "four", "five"]));
}

#[test]
fn inline_tags_beyond_ascii() {
    let parsed = parse_note("#été… #日本語。 #x²");
    assert_eq!(parsed.tags, strings(&["été", "日本語", "x²"]));
}

#[test]
fn hash_inside_a_word_is_no_tag() {
    let parsed = parse_note("c#sharp issue#12");
    assert!(parsed.tags.is_empty());
}

#[test]
fn extract_wikilinks_appends() {
    let mut links = strings(&["kept"]);
    extract_wikilinks("[[a]] [[b|c]]", &mut links);
    assert_eq!(links, strings(&["kept", "a", "b"]));
}

#[test]
fn extract_frontmatter_fills_both() {
    let mut frontmatter = Frontmatter::new();
    let mut tags = strings(&["x"]);
    extract_frontmatter("---\nk: v\ntags: [x, y]\n---\n#z", &mut frontmatter, &mut tags);
    assert_eq!(frontmatter.get("k"), Some(&"v".to_string()));
    assert_eq!(tags, strings(&["x", "y"]));
}

#[test]
fn extract_frontmatter_without_block_changes_nothing() {
    let mut frontmatter = Frontmatter::new();
    let mut tags: Vec<String> = Vec::new();
    extract_frontmatter("k: v\ntags: [x]\n", &mut frontmatter, &mut tags);
    assert!(frontmatter.is_empty());
    assert!(tags.is_empty());
}

#[test]
fn extract_inline_tags_skips_known_tags() {
    let mut tags = strings(&["b"]);
    extract_inline_tags("---\nq: #no\n---\n#a #b #c", &mut tags);
    assert_eq!(tags, strings(&["b", "a", "c"]));
}

fn expected_links(content: &str) -> Vec<String> {
    let mut links = Vec::new();
    let mut chars = content.chars().peekable();
    while let Some(c) = chars.next() {
        if c == '[' && chars.peek() == Some(&'[') {
            chars.next();
            let mut link = String::new();
            let mut found_close = false;
            while let Some(&c2) = chars.peek() {
                chars.next();
                if c2 == ']' && chars.peek() == Some(&']') {
                    chars.next();
                    found_close = true;
                    break;
                }
                link.push(c2);
            }
            if found_close && !link.is_empty() {
                let target = link.split('|').next().unwrap_or(&link).trim().to_string();
                if !target.is_empty() {
                    links.push(target);
                }
            }
        }
    }
    links
}

fn expected_tags(content: &str) -> Vec<String> {
    let mut tags: Vec<String> = Vec::new();
    let trimmed = content.trim_start();
    let mut body = content;
    if trimmed.starts_with("---") {
        let after = &trimmed[3..];
        if let Some(end) = after.find("\n---") {
            for line in after[..end].lines() {
                let line = line.trim();
                if line.is_empty() || line.starts_with('#') {
                    continue;
                }
                if let Some((key, value)) = line.split_once(':') {
                    if key.trim() == "tags" {
                        let list = value.trim().trim_start_matches('[').trim_end_matches(']');
                        for tag in list.split(',') {
                            let tag = tag.trim().trim_matches('"').trim_matches('\'').to_string();
                            if !tag.is_empty() && !tags.contains(&tag) {
                                tags.push(tag);
                            }
                        }
                    }
                }
            }
            body = &after[end + 4..];
        }
    }
    for word in body.split_whitespace() {
        if word.starts_with('#') && word.len() > 1 {
            let tag = word
                .trim_start_matches('#')
                .trim_end_matches(|c: char| !c.is_alphanumeric() && c != '-' && c != '_' && c != '/')
                .to_string();
            if !tag.is_empty() && !tags.contains(&tag) {
                tags.push(tag);
            }
        }
    }
    tags
}

fn expected_fields(content: &str) -> std::collections::HashMap<String, String> {
    let mut fields = std::collections::HashMap::new();
    let trimmed = content.trim_start();
    if !trimmed.starts_with("---") {
        return fields;
    }
    let after = &trimmed[3..];
    if let Some(end) = after.find("\n---") {
        for line in after[..end].lines() {
            let line = line.trim();
            if line.is_empty() || line.starts_with('#') {
                continue;
            }
            if let Some((key, value)) = line.split_once(':') {
                let key = key.trim().to_string();
                let value = value.trim().to_string();
                if key != "tags" {
                    fields.insert(key, value);
                }
            }
        }
    }
    fields
}

#[test]
fn parser_agrees_with_std_string_methods_on_generated_texts() {
    let alphabet: Vec<&str> = vec![
        "[", "[[", "]", "]]", "|", "#", "-", "---", "\n", "\r\n", " ", "\t", "a", "b", ":", ",",
        "tags", "tags: [", "\"", "'", ".", "é", "\u{00A0}", "\n---", "x y", "#t", "_", "/",
        "---\n", "k: v\n", "title:", "\n---\n",
    ];
    let mut state: u64 = 0x9E37_79B9_7F4A_7C15;
    let mut checked = 0;
    for _ in 0..4000 {
        let mut text = String::new();
        state = state.wrapping_mul(6364136223846793005).wrapping_add(1442695040888963407);
        let len = (state >> 59) as usize + 1;
        for _ in 0..len {
            state = state.wrapping_mul(6364136223846793005).wrapping_add(1442695040888963407);
            let pick = ((state >> 33) as usize) % alphabet.len();
            text.push_str(alphabet[pick]);
        }
        let parsed = parse_note(&text);
        assert_eq!(parsed.links, expected_links(&text), "links of {:?}", text);
        assert_eq!(parsed.tags, expected_tags(&text), "tags of {:?}", text);
        let fields = expected_fields(&text);
        assert_eq!(parsed.frontmatter.len(), fields.len(), "fields of {:?}", text);
        for (key, value) in &fields {
            assert_eq!(parsed.frontmatter.get(key), Some(value), "field {:?} of {:?}", key, text);
        }
        checked += 1;
    }
    assert_eq!(checked, 4000);
}

#[test]
fn a_long_note() {
    let mut text = String::from("---\ntitle: Long\ntags: [big]\n---\n");
    for i in 0..5000 {
        text.push_str(&format!("Line {} links to [[Note {}|shown]] and has #tag{} .\n", i, i % 50, i % 20));
    }
    text.push_str("[[never closed");
    let parsed = parse_note(&text);
    assert_eq!(parsed.links.len(), 5000);
    assert_eq!(parsed.links[4999], "Note 49");
    assert_eq!(parsed.tags.len(), 21);
    assert_eq!(parsed.tags[0], "big");
    assert_eq!(parsed.tags[20], "tag19");
    assert_eq!(parsed.frontmatter.get("title"), Some(&"Long".to_string()));
}
