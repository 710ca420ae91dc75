use boo::{boo, boo_include_bytes, boo_include_str, boo_init, ByteOrder, Delimiter, Expr, Lit, Value};

/// The expression that the source text spells, as plain data.
fn lower(expr: &syn::Expr) -> Expr {
    match expr {
        syn::Expr::Array(array) => Expr::Array(array.elems.iter().map(lower).collect()),
        syn::Expr::Tuple(tuple) => Expr::Tuple(tuple.elems.iter().map(lower).collect()),
        syn::Expr::Lit(lit) => Expr::Lit(lower_lit(&lit.lit)),
        syn::Expr::Unary(unary) if matches!(unary.op, syn::UnOp::Neg(_)) => {
            Expr::Neg(Box::new(lower(&unary.expr)))
        }
        _ => Expr::Other,
    }
}

fn lower_lit(lit: &syn::Lit) -> Lit {
    match lit {
        syn::Lit::Str(s) => Lit::Str(s.value()),
        syn::Lit::ByteStr(s) => Lit::ByteStr(s.value()),
        syn::Lit::CStr(s) => Lit::CStr(s.value().into_bytes()),
        syn::Lit::Byte(b) => Lit::Byte(b.value()),
        syn::Lit::Char(c) => Lit::Char(c.value()),
        syn::Lit::Int(i) => Lit::Int(i.base10_digits().to_string()),
        syn::Lit::Float(f) => Lit::Float(f.base10_parse::<f64>().ok().map(f64::to_bits)),
        syn::Lit::Bool(b) => Lit::Bool(b.value),
        _ => Lit::Verbatim,
    }
}

/// Obfuscates the literal that `source` spells under a fresh key, and
/// reconstructs it.
fn run(source: &str) -> Value {
    let expr = lower(&syn::parse_str::<syn::Expr>(source).unwrap());
    let key = boo_init(None);
    let order = ByteOrder::native();
    let encrypted = boo(&expr, &key, order).unwrap();
    encrypted.decrypt(&key, order).unwrap()
}

fn word(value: isize) -> Value {
    Value::Int(value)
}

fn double(value: f64) -> Value {
    Value::Float(value.to_bits())
}

fn text(value: &str) -> Value {
    Value::Str(value.to_owned())
}

fn bytes(value: &[u8]) -> Value {
    Value::ByteStr(value.to_owned())
}

fn cstr(value: &[u8]) -> Value {
    let mut with_nul = value.to_owned();
    with_nul.push(0);
    Value::CStr(with_nul)
}

fn bracketed(items: Vec<Value>) -> Value {
    Value::Sequence { items, delimiter: Delimiter::Bracket }
}

fn parenthesized(items: Vec<Value>) -> Value {
    Value::Sequence { items, delimiter: Delimiter::Parenthesis }
}

fn sign_is_positive(value: Value) -> bool {
    match value {
        Value::Float(bits) => f64::from_bits(bits).is_sign_positive(),
        _ => panic!("not a float"),
    }
}

#[test]
fn test_literal_bool() {
    assert!(run("true") == Value::Bool(true));
    assert!(!(run("false") == Value::Bool(true)));
}

#[test]
fn test_literal_isize() {
    assert_eq!(run("-9223372036854775808"), word(-9223372036854775808));

    assert_eq!(run("-1"), word(-1));

    assert_eq!(run("-0"), word(-0));

    assert_eq!(run("0"), word(0));

    assert_eq!(run("1"), word(1));

    assert_eq!(run("9223372036854775807"), word(9223372036854775807));
}

#[test]
fn test_literal_f64() {
    assert_eq!(
        run("-1.7976931348623157e+308_f64"),
        double(-1.7976931348623157e+308_f64)
    );

    assert_eq!(run("-1."), double(-1.));

    assert_eq!(run("0."), double(0.));
    assert_eq!(sign_is_positive(run("0.0")), 0f64.is_sign_positive());
    assert_eq!(sign_is_positive(run("-0.0")), (-0f64).is_sign_positive());

    assert_eq!(run("1."), double(1.));

    assert_eq!(run("1.7976931348623157e+308"), double(1.7976931348623157e+308));
}

#[test]
fn test_literal_char() {
    assert_eq!(run(r"'\0'"), Value::Char('\0'));
    assert_eq!(run(r"'\n'"), Value::Char('\n'));
    assert_eq!(run(r"'\\'"), Value::Char('\\'));

    assert_eq!(run("'0'"), Value::Char('0'));
    assert_eq!(run("'9'"), Value::Char('9'));

    assert_eq!(run("'a'"), Value::Char('a'));
    assert_eq!(run("'z'"), Value::Char('z'));
    assert_eq!(run("'A'"), Value::Char('A'));
    assert_eq!(run("'Z'"), Value::Char('Z'));

    assert_eq!(run(r"'\u{10AAAA}'"), Value::Char('\u{10AAAA}'));
}

#[test]
fn test_literal_byte() {
    assert_eq!(run(r"b'\0'"), Value::Byte(b'\0'));
    assert_eq!(run(r"b'\n'"), Value::Byte(b'\n'));
    assert_eq!(run(r"b'\\'"), Value::Byte(b'\\'));

    assert_eq!(run("b'0'"), Value::Byte(b'0'));
    assert_eq!(run("b'9'"), Value::Byte(b'9'));

    assert_eq!(run("b'a'"), Value::Byte(b'a'));
    assert_eq!(run("b'z'"), Value::Byte(b'z'));
    assert_eq!(run("b'A'"), Value::Byte(b'A'));
    assert_eq!(run("b'Z'"), Value::Byte(b'Z'));
}

#[test]
fn test_literal_str() {
    assert_eq!(
        run(r#""\0\n\\ 09azAZ \u{10FFFF}""#),
        text("\0\n\\ 09azAZ \u{10FFFF}")
    );

    assert_eq!(run(r##"r"raw""##), text(r"raw"));
    assert_eq!(run(r###"r#"raw"#"###), text(r#"raw"#));
    assert_eq!(
        run(
            r###"
            r#"
        multiline
        "#
        "###
        ),
        text(
            r#"
        multiline
        "#
        )
    );
}

#[test]
fn test_literal_bstr() {
    assert_eq!(run(r#"b"\0\n\\ 09azAZ""#), bytes(b"\0\n\\ 09azAZ"));

    assert_eq!(run(r##"br"raw""##), bytes(br"raw"));
    assert_eq!(run(r###"br#"raw"#"###), bytes(br#"raw"#));
    assert_eq!(
        run(
            r###"
            br#"
        multiline
        "#
        "###
        ),
        bytes(
            br#"
        multiline
        "#
        )
    );
}

#[test]
fn test_literal_cstr() {
    assert_eq!(
        run(r#"c"\n\\ 09azAZ \u{10FFFF}""#),
        cstr("\n\\ 09azAZ \u{10FFFF}".as_bytes())
    );

    assert_eq!(run(r##"cr"raw""##), cstr(br"raw"));
    assert_eq!(run(r###"cr#"raw"#"###), cstr(br#"raw"#));
    assert_eq!(
        run(
            r###"
            cr#"
        multiline
        "#
        "###
        ),
        cstr(
            br#"
        multiline
        "#
        )
    );
}

#[test]
fn test_literal_array_bool() {
    assert_eq!(
        run("[true, false]"),
        bracketed(vec![Value::Bool(true), Value::Bool(false)])
    );
}

#[test]
fn test_literal_array_u8() {
    assert_eq!(
        run("[0, 1, 2, 3, 255]"),
        bracketed(vec![word(0), word(1), word(2), word(3), word(255)])
    );
}

#[test]
fn test_literal_array_float() {
    assert_eq!(
        run("[0., 1., 2., 3., 255.]"),
        bracketed(vec![double(0.), double(1.), double(2.), double(3.), double(255.)])
    );
}

#[test]
fn test_literal_array_char() {
    assert_eq!(
        run("['0', '1', '2', '3']"),
        bracketed(vec![
            Value::Char('0'),
            Value::Char('1'),
            Value::Char('2'),
            Value::Char('3')
        ])
    );
}

#[test]
fn test_literal_array_str() {
    assert_eq!(
        run(r#"["\0", "b", "c", ""]"#),
        bracketed(vec![text("\0"), text("b"), text("c"), text("")])
    );
}

#[test]
fn test_literal_array_bstr() {
    assert_eq!(
        run(r#"[b"\012", b"bbb", b"ccc", b"abc"]"#),
        bracketed(vec![
            bytes(b"\012"),
            bytes(b"bbb"),
            bytes(b"ccc"),
            bytes(b"abc")
        ])
    );
}

#[test]
fn test_literal_array_cstr() {
    assert_eq!(
        run(r#"[c"a", c"b", c"c", c""]"#),
        bracketed(vec![cstr(b"a"), cstr(b"b"), cstr(b"c"), cstr(b"")])
    );
}

#[test]
fn test_literal_bool_sequence() {
    assert_eq!(
        run("[true, false]"),
        bracketed(vec![Value::Bool(true), Value::Bool(false)])
    );
    assert_eq!(
        run("[[true], [false]]"),
        bracketed(vec![
            bracketed(vec![Value::Bool(true)]),
            bracketed(vec![Value::Bool(false)])
        ])
    );
    assert_eq!(
        run("(true, false)"),
        parenthesized(vec![Value::Bool(true), Value::Bool(false)])
    );
    assert_eq!(
        run("(true, (false, true))"),
        parenthesized(vec![
            Value::Bool(true),
            parenthesized(vec![Value::Bool(false), Value::Bool(true)])
        ])
    );
}

#[test]
fn test_literal_isize_sequence() {
    assert_eq!(
        run("[-9223372036854775808, -1, 0, 1, 9223372036854775807]"),
        bracketed(vec![
            word(-9223372036854775808),
            word(-1),
            word(0),
            word(1),
            word(9223372036854775807)
        ])
    );
    assert_eq!(
        run("[[1], [2], [3]]"),
        bracketed(vec![
            bracketed(vec![word(1)]),
            bracketed(vec![word(2)]),
            bracketed(vec![word(3)])
        ])
    );
    assert_eq!(run("(1, 2, 3)"), parenthesized(vec![word(1), word(2), word(3)]));
    assert_eq!(
        run("(1, (2, 3))"),
        parenthesized(vec![word(1), parenthesized(vec![word(2), word(3)])])
    );
}

#[test]
fn test_literal_f64_sequence() {
    assert_eq!(
        run(
            "[
            -1.7976931348623157e+308,
            -1.0,
            -0.0,
            0.0,
            1.0,
            1.7976931348623157e+308
        ]"
        ),
        bracketed(vec![
            double(-1.7976931348623157e+308),
            double(-1.0),
            double(-0.0),
            double(0.0),
            double(1.0),
            double(1.7976931348623157e+308)
        ])
    );
    assert_eq!(
        run("[[0.0], [1.0]]"),
        bracketed(vec![bracketed(vec![double(0.0)]), bracketed(vec![double(1.0)])])
    );
    assert_eq!(run("(0.0, 1.0)"), parenthesized(vec![double(0.0), double(1.0)]));
    assert_eq!(
        run("(0.0, (1.0, -1.0))"),
        parenthesized(vec![double(0.0), parenthesized(vec![double(1.0), double(-1.0)])])
    );
}

#[test]
fn test_literal_char_sequence() {
    assert_eq!(
        run(r"['a', 'z', 'A', 'Z', '\0', '\n', '\\']"),
        bracketed(vec![
            Value::Char('a'),
            Value::Char('z'),
            Value::Char('A'),
            Value::Char('Z'),
            Value::Char('\0'),
            Value::Char('\n'),
            Value::Char('\\')
        ])
    );
    assert_eq!(
        run("[['0'], ['1']]"),
        bracketed(vec![
            bracketed(vec![Value::Char('0')]),
            bracketed(vec![Value::Char('1')])
        ])
    );
    assert_eq!(
        run("('a', 'Z')"),
        parenthesized(vec![Value::Char('a'), Value::Char('Z')])
    );
    assert_eq!(
        run("('a', ('b', 'c'))"),
        parenthesized(vec![
            Value::Char('a'),
            parenthesized(vec![Value::Char('b'), Value::Char('c')])
        ])
    );
}

#[test]
fn test_literal_byte_sequence() {
    assert_eq!(
        run(r"[b'a', b'z', b'A', b'Z', b'\0', b'\n', b'\\']"),
        bracketed(vec![
            Value::Byte(b'a'),
            Value::Byte(b'z'),
            Value::Byte(b'A'),
            Value::Byte(b'Z'),
            Value::Byte(b'\0'),
            Value::Byte(b'\n'),
            Value::Byte(b'\\')
        ])
    );
    assert_eq!(
        run("[[b'0'], [b'1']]"),
        bracketed(vec![
            bracketed(vec![Value::Byte(b'0')]),
            bracketed(vec![Value::Byte(b'1')])
        ])
    );
    assert_eq!(
        run("(b'a', b'Z')"),
        parenthesized(vec![Value::Byte(b'a'), Value::Byte(b'Z')])
    );
    assert_eq!(
        run("(b'a', ('b', b'c'))"),
        parenthesized(vec![
            Value::Byte(b'a'),
            parenthesized(vec![Value::Char('b'), Value::Byte(b'c')])
        ])
    );
}

#[test]
fn test_literal_str_sequence() {
    assert_eq!(
        run(r#"["\0", "\n", "\\", "abc", "ABC", "\u{10FFFF}"]"#),
        bracketed(vec![
            text("\0"),
            text("\n"),
            text("\\"),
            text("abc"),
            text("ABC"),
            text("\u{10FFFF}")
        ])
    );
    assert_eq!(
        run(r#"[["a"], ["b"]]"#),
        bracketed(vec![bracketed(vec![text("a")]), bracketed(vec![text("b")])])
    );
    assert_eq!(
        run(r#"("a", "b")"#),
        parenthesized(vec![text("a"), text("b")])
    );
    assert_eq!(
        run(r#"("a", ("b", "c"))"#),
        parenthesized(vec![text("a"), parenthesized(vec![text("b"), text("c")])])
    );
}

#[test]
fn test_literal_bstr_sequence() {
    assert_eq!(
        run(r#"[b"abc", b"\n\\ ", b"\012"]"#),
        bracketed(vec![bytes(b"abc"), bytes(b"\n\\ "), bytes(b"\012")])
    );
    assert_eq!(
        run(r#"[[b"a"], [b"b"]]"#),
        bracketed(vec![bracketed(vec![bytes(b"a")]), bracketed(vec![bytes(b"b")])])
    );
    assert_eq!(
        run(r#"(b"a", b"b")"#),
        parenthesized(vec![bytes(b"a"), bytes(b"b")])
    );
    assert_eq!(
        run(r#"(b"a", (b"b", b"c"))"#),
        parenthesized(vec![bytes(b"a"), parenthesized(vec![bytes(b"b"), bytes(b"c")])])
    );
}

#[test]
fn test_literal_cstr_sequence() {
    assert_eq!(
        run(r#"[c"abc", c"\n\\ ", c"\u{10FFFF}"]"#),
        bracketed(vec![
            cstr(b"abc"),
            cstr(b"\n\\ "),
            cstr("\u{10FFFF}".as_bytes())
        ])
    );
    assert_eq!(
        run(r#"[[c"a"], [c"b"]]"#),
        bracketed(vec![bracketed(vec![cstr(b"a")]), bracketed(vec![cstr(b"b")])])
    );
    assert_eq!(
        run(r#"(c"a", c"b")"#),
        parenthesized(vec![cstr(b"a"), cstr(b"b")])
    );
    assert_eq!(
        run(r#"(c"a", (c"b", c"c"))"#),
        parenthesized(vec![cstr(b"a"), parenthesized(vec![cstr(b"b"), cstr(b"c")])])
    );
}

/// What the file `../assets/lorem_ipsum.txt` holds.
const LOREM_IPSUM: &[u8] = b"Lorem ipsum dolor sit amet";

#[test]
fn test_include_bytes() {
    let key = boo_init(None);
    let encrypted = boo_include_bytes(LOREM_IPSUM.to_vec(), &key);
    assert_eq!(
        encrypted.decrypt(&key, ByteOrder::native()).unwrap(),
        bytes(b"Lorem ipsum dolor sit amet")
    );
}

#[test]
fn test_include_str() {
    let key = boo_init(None);
    let encrypted = boo_include_str(LOREM_IPSUM.to_vec(), &key).unwrap();
    assert_eq!(
        encrypted.decrypt(&key, ByteOrder::native()).unwrap(),
        text("Lorem ipsum dolor sit amet")
    );
}
