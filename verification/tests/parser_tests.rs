use notego::markdown::extract_text;
use notego::parser::{
    collect_code_block_lines, extract_link_target, extract_tags, extract_wiki_links,
    front_matter_block, parse, split_front_matter, split_link_target, truncate_context,
    FrontMatter, ParsedNote,
};

fn empty_front_matter() -> FrontMatter {
    FrontMatter {
        title: None,
        tags: Vec::new(),
        aliases: Vec::new(),
        extra: serde_yaml::Value::Null,
    }
}

fn strings(v: Option<&serde_yaml::Value>) -> Vec<String> {
    match v.and_then(|x| x.as_sequence()) {
        Some(seq) => seq.iter().filter_map(|x| x.as_str()).map(|x| x.to_string()).collect(),
        None => Vec::new(),
    }
}

fn decode_front_matter(raw: &str) -> FrontMatter {
    let value: serde_yaml::Value = serde_yaml::from_str(raw).unwrap();
    FrontMatter {
        title: value.get("title").and_then(|t| t.as_str()).map(|t| t.to_string()),
        tags: strings(value.get("tags")),
        aliases: strings(value.get("aliases").or(value.get("alias"))),
        extra: value,
    }
}

fn parse_note(md: &str) -> ParsedNote {
    let fm = match front_matter_block(md) {
        Some(raw) => decode_front_matter(&raw),
        None => empty_front_matter(),
    };
    parse(md, fm)
}

#[test]
fn test_simple_wiki_link() {
    let p = parse_note("hello [[note]] world");
    assert_eq!(p.links.len(), 1);
    let l = &p.links[0];
    assert_eq!(l.target, "note");
    assert_eq!(l.alias, None);
    assert_eq!(l.heading, None);
    assert_eq!(l.line, 1);
    assert!(l.raw.contains("[[note]]"));
}

#[test]
fn test_wiki_with_alias() {
    let p = parse_note("see [[note|display name]] here");
    assert_eq!(p.links.len(), 1);
    let l = &p.links[0];
    assert_eq!(l.target, "note");
    assert_eq!(l.alias, Some("display name".to_string()));
    assert_eq!(l.heading, None);
}

#[test]
fn test_wiki_with_heading() {
    let p = parse_note("jump to [[note#section]] now");
    assert_eq!(p.links.len(), 1);
    let l = &p.links[0];
    assert_eq!(l.target, "note");
    assert_eq!(l.heading, Some("section".to_string()));
    assert_eq!(l.alias, None);
}

#[test]
fn test_wiki_with_heading_and_alias() {
    let p = parse_note("see [[note#section|click]]");
    assert_eq!(p.links.len(), 1);
    let l = &p.links[0];
    assert_eq!(l.target, "note");
    assert_eq!(l.heading, Some("section".to_string()));
    assert_eq!(l.alias, Some("click".to_string()));
}

#[test]
fn test_yaml_front_matter() {
    let md = "---\ntitle: Hello\ntags: [a, b]\naliases: [x, y]\n---\n\n# body\n";
    let p = parse_note(md);
    assert_eq!(p.front_matter.title.as_deref(), Some("Hello"));
    assert_eq!(p.front_matter.tags, vec!["a", "b"]);
    assert_eq!(p.front_matter.aliases, vec!["x", "y"]);
    assert!(p.body.contains("body"));
}

#[test]
fn test_inline_tags_and_skip_code_block() {
    let md = "\
# 标题

正文 #foo 和 #bar 还有 #parent/child。

```
let x = 1; // #not_a_tag
#also_skipped
```

#another_tag at end
";
    let p = parse_note(md);
    assert!(p.tags.contains(&"foo".to_string()));
    assert!(p.tags.contains(&"bar".to_string()));
    assert!(p.tags.contains(&"parent/child".to_string()));
    assert!(p.tags.contains(&"another_tag".to_string()));
    assert!(!p.tags.contains(&"not_a_tag".to_string()));
    assert!(!p.tags.contains(&"also_skipped".to_string()));
}

#[test]
fn test_front_matter_tags_merged_with_inline() {
    let md = "---\ntags: [yaml_tag]\n---\n# heading\n\nbody #inline_tag\n";
    let p = parse_note(md);
    assert!(p.tags.contains(&"yaml_tag".to_string()));
    assert!(p.tags.contains(&"inline_tag".to_string()));
}

#[test]
fn test_skip_markdown_heading_sharp() {
    let p = parse_note("## Sub Heading\n\nbody #real\n");
    assert!(p.tags.contains(&"real".to_string()));
    assert!(!p.tags.contains(&"Sub".to_string()));
    assert!(!p.tags.contains(&"Heading".to_string()));
}

#[test]
fn test_multiple_links_on_one_line() {
    let p = parse_note("first [[a]] and [[b|see]] and [[c#h]]");
    assert_eq!(p.links.len(), 3);
    assert_eq!(p.links[0].target, "a");
    assert_eq!(p.links[1].target, "b");
    assert_eq!(p.links[1].alias.as_deref(), Some("see"));
    assert_eq!(p.links[2].target, "c");
    assert_eq!(p.links[2].heading.as_deref(), Some("h"));
}

#[test]
fn tags_are_distinct_front_matter_first() {
    let md = "---\ntags: [b, a, b]\n---\n#c #a #c\n";
    let p = parse_note(md);
    assert_eq!(p.tags, vec!["b", "a", "c"]);
}

#[test]
fn tags_skip_url_fragments() {
    let p = parse_note("see https://example.com/page #frag and (#ok)\n");
    assert_eq!(p.tags, vec!["frag"]);
    let p = parse_note("https://x.com/a#b #c\n");
    assert_eq!(p.tags, Vec::<String>::new());
    let p = parse_note("#a https://x.com/#f (#g\n");
    assert_eq!(p.tags, vec!["a"]);
}

#[test]
fn tags_need_a_lead_character() {
    let p = parse_note("a#b (#c >#d x #e-f/g_h\n");
    assert_eq!(p.tags, vec!["c", "d", "e-f/g_h"]);
}

#[test]
fn tags_take_unicode_word_characters() {
    let p = parse_note("note #a标签。 and #标签\n");
    assert_eq!(p.tags, vec!["a标签"]);
}

#[test]
fn heading_detection_uses_alphanumeric() {
    let p = parse_note("#_x\n#1 heading? #y\n# real heading #z\n");
    assert_eq!(p.tags, vec!["_x", "y"]);
}

#[test]
fn tilde_fences_and_unclosed_fences() {
    let p = parse_note("~~~\n#inside\n~~~\n#after\n````\n#open\n");
    assert_eq!(p.tags, vec!["after"]);
}

#[test]
fn links_keep_line_numbers_and_context() {
    let p = parse_note("line one\n   second [[x]] line  \nthird");
    assert_eq!(p.links.len(), 1);
    assert_eq!(p.links[0].line, 2);
    assert_eq!(p.links[0].context, "second [[x]] line");
    assert_eq!(p.links[0].raw, "[[x]]");
}

#[test]
fn links_context_is_cut_to_200_characters() {
    let long = format!("[[t]] {}", "é".repeat(300));
    let p = parse_note(&long);
    assert_eq!(p.links.len(), 1);
    let ctx = &p.links[0].context;
    assert_eq!(ctx.chars().count(), 201);
    assert!(ctx.ends_with('…'));
}

#[test]
fn links_need_nonempty_bracket_free_inside() {
    let p = parse_note("[[]] [[[a]] [[b] c]] [[d\n]]");
    let targets: Vec<&str> = p.links.iter().map(|l| l.target.as_str()).collect();
    assert_eq!(targets, vec!["a"]);
    assert_eq!(p.links[0].raw, "[[a]]");
}

#[test]
fn link_alias_without_heading_and_trimming() {
    let p = parse_note("[[ a | b ]] [[x#|y]] [[p|q#r]]");
    assert_eq!(p.links[0].target, "a");
    assert_eq!(p.links[0].alias.as_deref(), Some("b"));
    assert_eq!(p.links[1].heading.as_deref(), Some(""));
    assert_eq!(p.links[1].alias.as_deref(), Some("y"));
    assert_eq!(p.links[2].target, "p");
    assert_eq!(p.links[2].heading.as_deref(), Some("r"));
    assert_eq!(p.links[2].alias.as_deref(), Some("q"));
}

#[test]
fn extract_link_target_forms() {
    assert_eq!(extract_link_target("[[note]]"), "note");
    assert_eq!(extract_link_target("note"), "note");
    assert_eq!(extract_link_target("  [[note#heading]] "), "note");
    assert_eq!(extract_link_target("[[note|alias]]"), "note");
    assert_eq!(extract_link_target("[[note#heading|alias]]"), "note");
    assert_eq!(extract_link_target("[[]"), "[[]");
    assert_eq!(extract_link_target("[[]]"), "");
}

#[test]
fn split_front_matter_cases() {
    assert_eq!(
        split_front_matter("---\na: 1\n---\nbody\n"),
        Some(("a: 1\n".to_string(), "body\n".to_string()))
    );
    assert_eq!(
        split_front_matter("---  \r\nx\n---\t\nrest"),
        Some(("x\n".to_string(), "rest".to_string()))
    );
    assert_eq!(split_front_matter("---\nno end\n"), None);
    assert_eq!(split_front_matter("text\n---\nx\n---\n"), None);
    assert_eq!(split_front_matter(""), None);
    assert_eq!(front_matter_block("---\n  \n---\nbody"), None);
    assert_eq!(front_matter_block("---\nt: 1\n---"), Some("t: 1\n".to_string()));
}

#[test]
fn body_excludes_front_matter() {
    let p = parse_note("---\ntitle: T\ntags: [x]\n---\nplain [[l]] #t\n");
    assert_eq!(p.links[0].line, 1);
    assert_eq!(p.tags, vec!["x", "t"]);
    assert!(!p.body.contains("title"));
}

#[test]
fn extract_text_keeps_text_and_breaks() {
    assert_eq!(extract_text("# Head\n\nsome `code` here\nnext\n\n---\n"), "Headsome code here\nnext\n");
    assert_eq!(extract_text(""), "");
}

#[test]
fn extract_text_drops_code_blocks() {
    let b = extract_text("text\n\n```\ncode_line\n```\n");
    assert!(b.contains("text"));
    assert!(!b.contains("code_line"));
    assert_eq!(b, "text");
    let indented = extract_text("para\n\n    indented_code\n\nafter\n");
    assert!(!indented.contains("indented_code"));
    assert!(indented.contains("after"));
    let p = parse_note("intro\n\n~~~\nhidden\n~~~\n");
    assert!(!p.body.contains("hidden"));
}

#[test]
fn front_matter_pieces_rebuild_the_note() {
    let md = "---  \ntitle: x\n---\r\nrest\nmore";
    let (fm, body) = split_front_matter(md).unwrap();
    assert_eq!(format!("---  \n{fm}---\r\n{body}"), md);
}

#[test]
fn link_raw_text_names_its_target() {
    let p = parse_note("a [[ Target One #sec | shown ]] b [[x|y]]\n[[z#w]]");
    assert_eq!(p.links.len(), 3);
    for l in &p.links {
        assert_eq!(extract_link_target(&l.raw), l.target);
    }
    assert_eq!(p.links[0].target, "Target One");
    assert_eq!(p.links[2].line, 2);
}

#[test]
fn code_block_line_numbers() {
    let md = "a\n```rust\nx\n  ~~~\n```\nb\n  ~~~~\nc\n~~~\nd";
    assert_eq!(collect_code_block_lines(md), vec![2, 3, 4, 5, 7, 8, 9]);
    assert_eq!(collect_code_block_lines(""), Vec::<usize>::new());
    assert_eq!(collect_code_block_lines("``\n#x"), Vec::<usize>::new());
}

#[test]
fn extract_tags_skips_listed_lines() {
    let text = "#a\n#b\n#c #a";
    assert_eq!(extract_tags(text, &[2]), vec!["a", "c"]);
    assert_eq!(extract_tags(text, &[]), vec!["a", "b", "c"]);
}

#[test]
fn split_link_target_documented_forms() {
    assert_eq!(
        split_link_target("note#section|alias"),
        ("note".to_string(), Some("section".to_string()), Some("alias".to_string()))
    );
    assert_eq!(split_link_target("note#section"), ("note".to_string(), Some("section".to_string()), None));
    assert_eq!(split_link_target("note|alias"), ("note".to_string(), None, Some("alias".to_string())));
    assert_eq!(split_link_target("note"), ("note".to_string(), None, None));
    assert_eq!(split_link_target("note#"), ("note".to_string(), None, None));
}

#[test]
fn truncate_context_trims_and_cuts() {
    assert_eq!(truncate_context("  \u{3000}hi there\t"), "hi there");
    let s = "a".repeat(200);
    assert_eq!(truncate_context(&s), s);
    let t = "b".repeat(201);
    assert_eq!(truncate_context(&t), format!("{}…", "b".repeat(200)));
}

#[test]
fn extract_wiki_links_per_line() {
    let links = extract_wiki_links("[[a]]\n\n x [[b#c]] [[d|e]]");
    assert_eq!(links.len(), 3);
    assert_eq!((links[0].line, links[1].line, links[2].line), (1, 3, 3));
    assert_eq!(links[1].heading.as_deref(), Some("c"));
    assert_eq!(links[2].alias.as_deref(), Some("e"));
    assert_eq!(links[2].context, "x [[b#c]] [[d|e]]");
}
