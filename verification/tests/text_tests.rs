use codeflow::text::{chars_of, decimal, join_vecs, lines_of, norm_ws, string_of, trim_vec};

#[test]
fn characters_round_trip() {
    let s = "h\u{e9}llo";
    let v = chars_of(s);
    assert_eq!(v, vec!['h', '\u{e9}', 'l', 'l', 'o']);
    assert_eq!(string_of(&v), s);
    assert_eq!(string_of(&[]), "");
}

#[test]
fn trimming_and_spacing() {
    assert_eq!(string_of(&trim_vec(&chars_of("  a b \t"))), "a b");
    assert_eq!(string_of(&norm_ws(&chars_of(" a \n  b  "))), "a b");
}

#[test]
fn decimals_and_joins() {
    assert_eq!(string_of(&decimal(0)), "0");
    assert_eq!(string_of(&decimal(1205)), "1205");
    let parts = vec![chars_of("a"), chars_of("b"), chars_of("c")];
    assert_eq!(string_of(&join_vecs(&parts, &chars_of(", "))), "a, b, c");
}

#[test]
fn lines_like_std() {
    assert_eq!(lines_of("a\r\nb\n\nc\n"), vec!["a", "b", "", "c"]);
    assert_eq!(lines_of(""), Vec::<String>::new());
    assert_eq!(lines_of("x"), vec!["x"]);
}
