use os_display::Quoted;

const BOTH_ALWAYS: &[(&str, &str)] = &[
    ("foo", "'foo'"),
    ("", "''"),
    ("foo/bar.baz", "'foo/bar.baz'"),
    ("can't", r#""can't""#),
];

const BOTH_MAYBE: &[(&str, &str)] = &[
    ("foo", "foo"),
    ("", "''"),
    ("foo bar", "'foo bar'"),
    ("$foo", "'$foo'"),
    ("-", "-"),
    ("a#b", "a#b"),
    ("#ab", "'#ab'"),
    ("a~b", "a~b"),
    ("!", "'!'"),
    ("}", ("'}'")),
    ("\u{200B}", "'\u{200B}'"),
    ("\u{200B}a", "'\u{200B}a'"),
    ("a\u{200B}", "a\u{200B}"),
    ("\u{2000}", "'\u{2000}'"),
];

const UNIX_ALWAYS: &[(&str, &str)] = &[
    (r#"can'"t"#, r#"'can'\''"t'"#),
    (r#"can'$t"#, r#"'can'\''$t'"#),
    ("foo\nb\ta\r\\\0`r", r#"$'foo\nb\ta\r\\\x00`r'"#),
    ("foo\x02", r#"$'foo\x02'"#),
    (r#"'$''"#, r#"\''$'\'\'"#),
];

const UNIX_MAYBE: &[(&str, &str)] = &[
    ("-x", "-x"),
    ("a,b", "a,b"),
    ("a\\b", "'a\\b'"),
    ("\x02AB", "$'\\x02'$'AB'"),
    ("\x02GH", "$'\\x02GH'"),
    ("\t", r#"$'\t'"#),
    ("\r", r#"$'\r'"#),
];

const UNIX_RAW: &[(&[u8], &str)] = &[
    (b"foo\xFF", r#"$'foo\xFF'"#),
    (b"foo\xFFbar", r#"$'foo\xFF'$'bar'"#),
];

#[test]
fn unix() {
    for &(orig, expected) in UNIX_ALWAYS.iter().chain(BOTH_ALWAYS) {
        assert_eq!(Quoted::unix(orig).render(), expected);
    }
    for &(orig, expected) in UNIX_MAYBE.iter().chain(BOTH_MAYBE) {
        assert_eq!(Quoted::unix(orig).force(false).render(), expected);
    }
    for &(orig, expected) in UNIX_RAW {
        assert_eq!(Quoted::unix_raw(orig).render(), expected);
    }
}

const WINDOWS_ALWAYS: &[(&str, &str)] = &[
    (r#"foo\bar"#, r#"'foo\bar'"#),
    (r#"can'"t"#, r#"'can''"t'"#),
    (r#"can'$t"#, r#"'can''$t'"#),
    ("foo\nb\ta\r\\\0`r", r#""foo`nb`ta`r\`0``r""#),
    ("foo\x02", r#""foo`u{02}""#),
    (r#"'$''"#, r#"'''$'''''"#),
];

const WINDOWS_MAYBE: &[(&str, &str)] = &[
    ("-x", "'-x'"),
    ("—x", "'—x'"),
    ("a,b", "'a,b'"),
    ("a\\b", "a\\b"),
    ("‘", r#""‘""#),
    ("‘\"", r#"''‘"'"#),
    ("„\0", r#""`„`0""#),
    ("\t", r#""`t""#),
    ("\r", r#""`r""#),
];

const WINDOWS_RAW: &[(&[u16], &str)] = &[(&[b'x' as u16, 0xD800], r#""x`u{D800}""#)];

#[test]
fn windows() {
    for &(orig, expected) in WINDOWS_ALWAYS.iter().chain(BOTH_ALWAYS) {
        assert_eq!(Quoted::windows(orig).render(), expected);
    }
    for &(orig, expected) in WINDOWS_MAYBE.iter().chain(BOTH_MAYBE) {
        assert_eq!(Quoted::windows(orig).force(false).render(), expected);
    }
    for &(orig, expected) in WINDOWS_RAW {
        assert_eq!(Quoted::windows_raw(orig).render(), expected);
    }
}

#[test]
fn leading_digit_sniffing() {
    assert_eq!(Quoted::windows("1d").force(false).render(), "'1d'");
    assert_eq!(Quoted::windows(".5").force(false).render(), "'.5'");
    assert_eq!(Quoted::windows(".d").force(false).render(), ".d");
    assert_eq!(Quoted::windows("—").force(false).render(), "—");
    assert_eq!(Quoted::unix("1d").force(false).render(), "1d");
}

#[test]
fn unterminated_bidi_is_escaped() {
    assert_eq!(
        Quoted::unix("\u{202E}abc").force(false).render(),
        r#"$'\xE2\x80\xAE'$'abc'"#
    );
    assert_eq!(
        Quoted::windows("\u{202E}abc").force(false).render(),
        r#""`u{202E}abc""#
    );
    assert_eq!(
        Quoted::unix("a\u{2066}b").force(false).render(),
        r#"$'a\xE2\x81\xA6'$'b'"#
    );
}

#[test]
fn balanced_bidi_is_not_escaped() {
    assert_eq!(
        Quoted::unix("a\u{202A}b\u{202C}").force(false).render(),
        "a\u{202A}b\u{202C}"
    );
    assert_eq!(
        Quoted::windows("a\u{202A}b\u{202C}").force(false).render(),
        "a\u{202A}b\u{202C}"
    );
}

#[test]
fn delete_and_c1_controls_are_escaped() {
    assert_eq!(Quoted::unix("a\x7F").render(), r#"$'a\x7F'"#);
    assert_eq!(Quoted::windows("a\x7F").render(), r#""a`u{7F}""#);
    assert_eq!(Quoted::unix("a\u{85}").render(), r#"$'a\xC2\x85'"#);
    assert_eq!(Quoted::windows("a\u{85}").render(), r#""a`u{85}""#);
}

#[test]
fn raw_sources_that_decode_use_the_normal_path() {
    assert_eq!(Quoted::unix_raw(b"foo").render(), "'foo'");
    let units: Vec<u16> = "foo".encode_utf16().collect();
    assert_eq!(Quoted::windows_raw(&units).render(), "'foo'");
    let pair: Vec<u16> = "x😀".encode_utf16().collect();
    assert_eq!(Quoted::windows_raw(&pair).render(), "'x😀'");
}

#[test]
fn unpaired_surrogates_are_escaped_per_unit() {
    assert_eq!(
        Quoted::windows_raw(&[0xDC00, b'a' as u16]).render(),
        r#""`u{DC00}a""#
    );
    assert_eq!(
        Quoted::windows_raw(&[0xD800, 0xD800, 0xDC00]).render(),
        r#""`u{D800}𐀀""#
    );
}

#[test]
fn invalid_bytes_inside_text() {
    assert_eq!(Quoted::unix_raw(b"\xFF").render(), r#"$'\xFF'"#);
    assert_eq!(Quoted::unix_raw(b"a\xC2b").render(), r#"$'a\xC2'$'b'"#);
    assert_eq!(Quoted::unix_raw(b"a\xFF\xFEz").render(), r#"$'a\xFF\xFEz'"#);
}
