use assoc_table::search::find_term;

#[test]
fn correct_line() {
    let search_term = "picture";
    let quote = "Every face, every shop, bedroom window, public-house, and
dark square is a picture feverishly turned--in search of what?";
    let ans = find_term(search_term, quote);

    assert_eq!("2: dark square is a picture feverishly turned--in search of what?", ans);
}

#[test]
fn term_on_first_line() {
    let ans = find_term("shop", "a shop\na square");
    assert_eq!("1: a shop", ans);
}

#[test]
fn term_absent_gives_empty() {
    let ans = find_term("harbour", "a shop\na square");
    assert_eq!("", ans);
}

#[test]
fn empty_term_matches_first_line() {
    let ans = find_term("", "alpha\nbeta");
    assert_eq!("1: alpha", ans);
}

#[test]
fn empty_quote_gives_empty() {
    let ans = find_term("word", "");
    assert_eq!("", ans);
}

#[test]
fn later_line_numbered_from_one() {
    let ans = find_term("gamma", "alpha\nbeta\ngamma delta\ngamma");
    assert_eq!("3: gamma delta", ans);
}

#[test]
fn trailing_newline_yields_empty_last_line() {
    let ans = find_term("beta", "alpha\nbeta\n");
    assert_eq!("2: beta", ans);
}
