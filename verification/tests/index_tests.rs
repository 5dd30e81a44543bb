use notego::index::{
    batch_ranges, extract_line_snippet, fts5_query, join_tags, like_escape, resolve_link_queries,
    safe_fts5_phrase, LinkQuery, BATCH_SIZE,
};

#[test]
fn fts5_phrase_wraps_and_escapes() {
    assert_eq!(safe_fts5_phrase("hello"), "\"hello\"");
    assert_eq!(safe_fts5_phrase("a\"b"), "\"a\"\"b\"");
    assert_eq!(safe_fts5_phrase("a*b"), "\"a*b\"");
    assert_eq!(safe_fts5_phrase("a OR b"), "\"a OR b\"");
    assert_eq!(safe_fts5_phrase("a\nb\tc"), "\"abc\"");
}

#[test]
fn like_escape_handles_specials() {
    assert_eq!(like_escape("plain"), "plain");
    assert_eq!(like_escape("a%b"), "a\\%b");
    assert_eq!(like_escape("a_b"), "a\\_b");
    assert_eq!(like_escape("a\\b"), "a\\\\b");
    assert_eq!(like_escape("a%_\\b"), "a\\%\\_\\\\b");
}

#[test]
fn fts5_phrase_drops_unicode_controls() {
    assert_eq!(safe_fts5_phrase("x\u{0}\u{85}y\u{7f}"), "\"xy\"");
    assert_eq!(safe_fts5_phrase(""), "\"\"");
    assert_eq!(safe_fts5_phrase("\"\""), "\"\"\"\"\"\"");
}

#[test]
fn search_query_blank_and_trimmed() {
    assert_eq!(fts5_query("   \t"), None);
    assert_eq!(fts5_query(""), None);
    assert_eq!(fts5_query("  a b  "), Some("\"a b\"".to_string()));
}

#[test]
fn line_snippet_reads_requested_line() {
    let body = "first\n  second line  \nthird";
    assert_eq!(extract_line_snippet(body, 2), "second line");
    assert_eq!(extract_line_snippet(body, 0), "first");
    assert_eq!(extract_line_snippet(body, -5), "first");
    assert_eq!(extract_line_snippet(body, 4), "");
    let long = format!("{}{}{}", "a".repeat(25), "x".repeat(200), "b".repeat(25));
    let s = extract_line_snippet(&long, 1);
    assert_eq!(s.chars().count(), 202);
    assert!(s.starts_with('…'));
    assert!(s.ends_with('…'));
    assert_eq!(s, format!("…{}…", "x".repeat(200)));
    let exact = "y".repeat(200);
    assert_eq!(extract_line_snippet(&exact, 1), exact);
}

#[test]
fn line_snippet_drops_link_brackets() {
    let body = "head\n  see [[Alpha]] and [[Beta|b]]  ";
    assert_eq!(extract_line_snippet(body, 2), "see Alpha and Beta|b");
    assert_eq!(extract_line_snippet("[[ x ]]", 1), "x");
    assert_eq!(extract_line_snippet("a [b] c", 1), "a [b] c");
}

#[test]
fn link_queries_in_priority_order() {
    let q = resolve_link_queries("[[My_Note#part|shown]]");
    assert_eq!(q.len(), 3);
    match (&q[0], &q[1], &q[2]) {
        (LinkQuery::ExactTitle(a), LinkQuery::TitleIgnoreCase(b), LinkQuery::PathLike(c)) => {
            assert_eq!(a, "My_Note");
            assert_eq!(b, "My_Note");
            assert_eq!(c, "%My\\_Note%");
        }
        _ => panic!("unexpected query order"),
    }
    assert!(resolve_link_queries("  [[]] ").is_empty());
}

#[test]
fn batches_cover_all_notes() {
    assert!(batch_ranges(0).is_empty());
    assert_eq!(batch_ranges(1), vec![(0, 1)]);
    assert_eq!(batch_ranges(BATCH_SIZE), vec![(0, BATCH_SIZE)]);
    assert_eq!(batch_ranges(2500), vec![(0, 1000), (1000, 2000), (2000, 2500)]);
}

#[test]
fn tags_join_with_spaces() {
    assert_eq!(join_tags(&vec![]), "");
    assert_eq!(join_tags(&vec!["a".to_string()]), "a");
    assert_eq!(join_tags(&vec!["a".to_string(), "b/c".to_string()]), "a b/c");
}

fn like_unescape(p: &str) -> Option<String> {
    let mut out = String::new();
    let mut it = p.chars();
    while let Some(c) = it.next() {
        match c {
            '\\' => out.push(it.next()?),
            '%' | '_' => return None,
            _ => out.push(c),
        }
    }
    Some(out)
}

#[test]
fn like_escape_reads_back_literally() {
    for s in ["", "50%_off\\now", "__", "\\", "plain text"] {
        assert_eq!(like_unescape(&like_escape(s)), Some(s.to_string()));
    }
}

#[test]
fn fts5_phrase_reads_back_literally() {
    let p = safe_fts5_phrase("say \"hi\" NEAR(x*)\u{1}");
    assert!(p.starts_with('"') && p.ends_with('"'));
    let inner = &p[1..p.len() - 1];
    assert_eq!(inner.replace("\"\"", "\""), "say \"hi\" NEAR(x*)");
}

#[test]
fn backlink_snippet_shows_link_line() {
    let body = "intro\n   see [[Alpha]] here  \n\nand [[Beta|b]] too";
    let links = notego::parser::extract_wiki_links(body);
    assert_eq!(links.len(), 2);
    assert_eq!(links[0].context, "see [[Alpha]] here");
    assert_eq!(extract_line_snippet(body, links[0].line as i64), "see Alpha here");
    assert_eq!(links[1].line, 4);
    assert_eq!(extract_line_snippet(body, links[1].line as i64), "and Beta|b too");
}
