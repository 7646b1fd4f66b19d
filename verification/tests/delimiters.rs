use librubyfmt::delimiters::BreakableDelims;

fn four(d: &BreakableDelims) -> (String, String, String, String) {
    (
        d.single_line_open().into_ruby(),
        d.single_line_close().into_ruby(),
        d.multi_line_open().into_ruby(),
        d.multi_line_close().into_ruby(),
    )
}

fn strs(a: &str, b: &str, c: &str, d: &str) -> (String, String, String, String) {
    (a.to_string(), b.to_string(), c.to_string(), d.to_string())
}

#[test]
fn delimiters_of_each_construct() {
    assert_eq!(four(&BreakableDelims::for_method_call()), strs("(", ")", "(", ")"));
    assert_eq!(four(&BreakableDelims::for_return_kw()), strs(" ", "", " [", "]"));
    assert_eq!(four(&BreakableDelims::for_kw()), strs(" ", "", "(", ")"));
    assert_eq!(four(&BreakableDelims::for_block_params()), strs(" |", "|", " |", "|"));
    assert_eq!(four(&BreakableDelims::for_array()), strs("[", "]", "[", "]"));
    assert_eq!(four(&BreakableDelims::for_when()), strs(" ", "", "", ""));
    assert_eq!(four(&BreakableDelims::for_hash()), strs("{", "}", "{", "}"));
}

#[test]
fn delimiter_tokens_are_delims() {
    let d = BreakableDelims::for_return_kw();
    assert!(matches!(d.single_line_open(), librubyfmt::line_tokens::LineToken::Delim { .. }));
    assert!(matches!(d.multi_line_close(), librubyfmt::line_tokens::LineToken::Delim { .. }));
    assert_eq!(d.single_open_text(), " ");
    assert_eq!(d.single_close_text(), "");
}

#[test]
fn duplicate_of_a_policy_holds_the_same_strings() {
    let d = BreakableDelims::for_kw();
    assert_eq!(four(&d.duplicate()), four(&d));
}
