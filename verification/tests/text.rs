use graph::words::{split_words, take_char};
use graph::Graph;

fn names(list: &[&str]) -> Vec<String> {
    list.iter().map(|name| name.to_string()).collect()
}

#[test]
fn words_are_split_at_white_space() {
    assert_eq!(split_words("a b d"), names(&["a", "b", "d"]));
    assert_eq!(split_words("  alpha\tbeta  gamma \n"), names(&["alpha", "beta", "gamma"]));
    assert_eq!(split_words("one"), names(&["one"]));
}

#[test]
fn a_line_without_words_has_none() {
    assert_eq!(split_words(""), Vec::<String>::new());
    assert_eq!(split_words("   \t \r\n"), Vec::<String>::new());
}

#[test]
fn other_white_space_than_blanks_separates_too() {
    assert_eq!(split_words("a\u{a0}b\u{3000}c\u{2028}d"), names(&["a", "b", "c", "d"]));
    assert_eq!(split_words("größe straße"), names(&["größe", "straße"]));
    assert_eq!(split_words("a-b_c.d"), names(&["a-b_c.d"]));
}

#[test]
fn a_character_joins_the_open_word_or_closes_it() {
    let mut found = names(&["x"]);
    let mut word = String::from("ab");
    take_char(&mut found, &mut word, 'c', false);
    assert_eq!(found, names(&["x"]));
    assert_eq!(word, "abc");
    take_char(&mut found, &mut word, ' ', true);
    assert_eq!(found, names(&["x", "abc"]));
    assert_eq!(word, "");
    take_char(&mut found, &mut word, ' ', true);
    assert_eq!(found, names(&["x", "abc"]));
    assert_eq!(word, "");
    take_char(&mut found, &mut word, ' ', false);
    assert_eq!(word, " ");
}

#[test]
fn lines_build_the_graph() {
    let mut g = Graph::new();
    g.add_line("a b d");
    g.add_line("b a d");
    g.add_line("c");
    g.add_line("");
    g.add_line("   ");
    g.add_line("\td   c  ");
    assert_eq!(g.len(), 4);
    assert_eq!(g.find_node("c"), Some(&names(&["d"])));
    assert_eq!(g.find_node("a").map(|list| list.len()), Some(2));
    assert_eq!(g.find_node("d").map(|list| list.len()), Some(3));
    assert_eq!(g.path_finder("a", "c"), names(&["a", "d", "c"]));
}

#[test]
fn a_query_needs_two_words() {
    let mut g = Graph::new();
    g.add_line("a b");
    assert_eq!(g.query(""), None);
    assert_eq!(g.query("a"), None);
    assert_eq!(g.query("a b c"), None);
    assert_eq!(g.query("  \t "), None);
    assert_eq!(g.query("a b"), Some(names(&["a", "b"])));
    assert_eq!(g.query("  b \t a\n"), Some(names(&["b", "a"])));
    assert_eq!(g.query("a a"), Some(names(&["a"])));
    assert_eq!(g.query("a z"), Some(Vec::new()));
    assert_eq!(g.query("z a"), Some(Vec::new()));
}

#[test]
fn a_path_is_shown_with_spaces_between_names() {
    let g = Graph::new();
    assert_eq!(g.print_path(&names(&["a", "d", "c"])), "a d c\n");
    assert_eq!(g.print_path(&names(&["a"])), "a\n");
    assert_eq!(g.print_path(&names(&["left", "right"])), "left right\n");
}

#[test]
fn no_path_is_shown_as_such() {
    let g = Graph::new();
    assert_eq!(g.print_path(&Vec::new()), "no path!\n");
}

#[test]
fn a_query_is_answered_in_text() {
    let mut g = Graph::new();
    g.add_line("a b d");
    g.add_line("b a d");
    g.add_line("c");
    g.add_line("d c");
    let shown = |line: &str| g.query(line).map(|path| g.print_path(&path));
    assert_eq!(shown("a c"), Some("a d c\n".to_string()));
    assert_eq!(shown("e a"), Some("no path!\n".to_string()));
    assert_eq!(shown("a a"), Some("a\n".to_string()));
    assert_eq!(shown("a"), None);
}
