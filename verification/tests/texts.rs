use comicinfo_generator::naming::{
    detect_file_type, detect_padding, get_prefix, get_separator, is_decimal_file, kind_of_lowercase,
    natural_sort_key, safe_from_normalized, sanitize_filename, separator_for_lowercase,
};
use comicinfo_generator::order::{compare_rows, compare_texts, sort_by_text};
use comicinfo_generator::natural::Relation;
use comicinfo_generator::text::{
    cut_text, has_prefix, has_suffix, join, lower_ascii, replace, same_ignoring_case, shorten,
    split_lines, trim, trim_end, trim_start,
};
use comicinfo_generator::unicode::is_space_char;

fn texts(list: &[&str]) -> Vec<String> {
    list.iter().map(|s| s.to_string()).collect()
}

#[test]
fn white_space_is_that_of_unicode() {
    for n in 0..0x11_0000u32 {
        if let Some(c) = char::from_u32(n) {
            assert_eq!(is_space_char(c), c.is_whitespace(), "{n:x}");
        }
    }
}

#[test]
fn texts_are_trimmed_like_strings() {
    for s in ["", " ", "a", " a ", "\u{3000}a\u{a0}b\t\r\n", "\u{200b}a\u{200b}", "  "] {
        assert_eq!(trim(s), s.trim(), "{s:?}");
    }
    assert_eq!(trim_end("a::", ':'), "a");
    assert_eq!(trim_end(":", ':'), "");
    assert_eq!(trim_start("==a=", '='), "a=");
}

#[test]
fn lines_are_split_like_strings() {
    for s in ["", "\n", "a", "a\n", "a\nb", "a\r\nb\r\n", "a\rb", "\n\n", "a\r", "a\n\r\nb"] {
        assert_eq!(split_lines(s), s.lines().collect::<Vec<_>>(), "{s:?}");
    }
}

#[test]
fn parts_are_replaced_like_strings() {
    for (s, part, new) in [
        ("a__b___c", "__", "_"),
        ("____", "__", "_"),
        ("aaa", "aa", "b"),
        ("abc", "x", "y"),
        ("", "x", "y"),
        ("\\n\\\"", "\\n", "\n"),
    ] {
        assert_eq!(replace(s, part, new), s.replace(part, new), "{s:?}");
    }
    assert_eq!(join(&texts(&["a", "b", ""]), ", "), "a, b, ");
    assert_eq!(join(&texts(&[]), ", "), "");
}

#[test]
fn ends_are_found() {
    assert!(has_prefix("chapter", "ch") && !has_prefix("c", "ch") && has_prefix("x", ""));
    assert!(has_suffix("a.cbz", ".cbz") && !has_suffix("cbz", ".cbz"));
    assert!(same_ignoring_case("SUMMARY", "Summary") && !same_ignoring_case("\u{c4}", "\u{e4}"));
    assert_eq!(lower_ascii("\u{c4}BC"), "\u{c4}bc");
}

#[test]
fn long_texts_are_cut_for_display() {
    assert_eq!(shorten(&"a".repeat(80)), "a".repeat(80));
    assert_eq!(shorten(&"a".repeat(81)), format!("{}...", "a".repeat(77)));
    // A character of three bytes is never cut in two.
    assert_eq!(shorten(&"\u{65e5}".repeat(27)), format!("{}...", "\u{65e5}".repeat(25)));
    assert_eq!(cut_text(&"b".repeat(121), 120, 117), format!("{}...", "b".repeat(117)));
    assert_eq!(cut_text(&"b".repeat(120), 120, 117), "b".repeat(120));
}

#[test]
fn texts_are_compared_like_strings() {
    let words = ["", "a", "A", "ab", "b", "\u{e9}", "z", "\u{1f600}", "\u{ffff}"];
    for a in words {
        for b in words {
            let expected = if a < b {
                Relation::Below
            } else if a == b {
                Relation::Same
            } else {
                Relation::Above
            };
            assert_eq!(compare_texts(a, b), expected, "{a:?} {b:?}");
        }
    }
    assert_eq!(compare_rows(&texts(&["a"]), &texts(&["a", "b"])), Relation::Below);
    assert_eq!(sort_by_text(&texts(&["b", "a", "b", "A"])), vec![3, 1, 0, 2]);
}

#[test]
fn kinds_are_told_by_words_and_numbers() {
    assert_eq!(detect_file_type("VOL.3.cbz"), "chapter");
    assert_eq!(detect_file_type("Vol 3.cbz"), "volume");
    assert_eq!(detect_file_type("volume3.cbz"), "volume");
    assert_eq!(detect_file_type("xvol3.cbz"), "chapter");
    assert_eq!(detect_file_type("CHAPTER 4 v2.cbz"), "volume");
    assert_eq!(detect_file_type("ep4.cbz"), "episode");
    assert_eq!(detect_file_type("Vol.cbz"), "unknown");
    assert_eq!(detect_file_type(""), "unknown");
    // Digits of other scripts are digits.
    assert_eq!(detect_file_type("\u{663}"), "chapter");
    assert_eq!(kind_of_lowercase("Ch 7", "ch 7"), "chapter");
    assert!(is_decimal_file("1.5.2") && !is_decimal_file("1.") && !is_decimal_file(".5"));
}

#[test]
fn prefixes_need_whole_words() {
    assert_eq!(get_prefix("Devolume 3.cbz", "auto", ""), "Episode");
    assert_eq!(get_prefix("Volume 3 Chapter 4.cbz", "auto", ""), "Volume");
    assert_eq!(get_prefix("ch.7.cbz", "auto", ""), "Chapter");
    assert_eq!(get_prefix("x", "anything else", ""), "Episode");
    assert_eq!(get_prefix("x", "custom", "  Part "), "  Part ");
}

#[test]
fn separators_follow_the_prefix() {
    assert_eq!(get_separator("Chapter", false, ""), ": ");
    assert_eq!(get_separator("VOLUME", false, "x"), ": ");
    assert_eq!(get_separator("Ch.", false, ""), ": ");
    assert_eq!(get_separator("Episode", false, ""), " - ");
    assert_eq!(get_separator("Chapter", true, "~"), " ~ ");
    assert_eq!(get_separator("Chapter", true, ""), ": ");
    assert_eq!(separator_for_lowercase("vol.", false, ""), ": ");
}

#[test]
fn names_are_made_safe() {
    assert_eq!(sanitize_filename("a/b\\c|d"), "abcd");
    assert_eq!(sanitize_filename("a\tb\nc"), "abc");
    assert_eq!(sanitize_filename("a -- b"), "a - b");
    assert_eq!(sanitize_filename("  .. "), "");
    // Characters with a compatible form are brought to it.
    assert_eq!(sanitize_filename("\u{ff21}\u{fb01}"), "Afi");
    assert_eq!(sanitize_filename("1\u{bd}"), sanitize_filename("11\u{2044}2"));
    assert_eq!(safe_from_normalized("x<y>"), "x(y)");
}

#[test]
fn padding_is_that_of_the_widest_number() {
    assert_eq!(detect_padding(&texts(&["Episode 1.cbz", "Episode 012.cbz"])), Some(3));
    assert_eq!(detect_padding(&texts(&["a", "b"])), None);
    assert_eq!(detect_padding(&texts(&[])), None);
    // A number that is part of a word does not count.
    assert_eq!(detect_padding(&texts(&["ch0001 2"])), Some(1));
}

#[test]
fn the_kind_depends_neither_on_case_nor_on_which_digits() {
    for name in [
        "Series Vol 3.cbz", "my ch12.5", "Ep  7", "x 9.1", "Cover", "v1 ch 2", "a_v2",
        "S\u{e9}rie vol 4", "\u{c9}v5", "\u{420}\u{43e}\u{43c} Ch 6", "\u{3a3}",
    ] {
        let kind = detect_file_type(name);
        assert_eq!(detect_file_type(&name.to_ascii_uppercase()), kind, "{name}");
        let digits: String =
            name.chars().map(|c| if c.is_ascii_digit() { '8' } else { c }).collect();
        assert_eq!(detect_file_type(&digits), kind, "{name}");
        assert_eq!(kind == "unknown", !name.chars().any(|c| c.is_ascii_digit()), "{name}");
    }
    assert_eq!(detect_file_type("Chapter 5 (VOLUME 2)"), "volume");
}

#[test]
fn the_case_of_ascii_letters_makes_no_difference_to_lower_case() {
    // What is lowered tells from its neighbours whether a sigma ends a word.
    let names = [
        "A\u{3a3}", "a\u{3a3}", "\u{3a3}A 1", "A.\u{3a3}.B 2", "\u{130}X 3", "\u{c9}PISODE 4",
        "\u{212a} VOL 5", "EPI\u{17f}ODE 6", "\u{a7d2}V7",
    ];
    for name in names {
        let lower = name.to_lowercase();
        assert_eq!(name.to_ascii_lowercase().to_lowercase(), lower);
        assert_eq!(detect_file_type(name), kind_of_lowercase(name, &lower));
        assert_eq!(detect_file_type(&name.to_ascii_uppercase()), detect_file_type(name));
        let key = natural_sort_key(name);
        assert_eq!(natural_sort_key(&name.to_ascii_lowercase()), key);
    }
    assert_eq!(natural_sort_key("A\u{3a3}"), ["1a\u{3c2}"]);
}

#[test]
fn lower_case_neither_takes_nor_makes_digits() {
    let digit = regex::Regex::new(r"\d").unwrap();
    for n in 0..0x11_0000u32 {
        let Some(c) = char::from_u32(n) else { continue };
        let upper = c.to_string();
        let lower = upper.to_lowercase();
        if upper != lower {
            assert!(!digit.is_match(&upper) && !digit.is_match(&lower), "{n:x}");
        }
    }
    assert_eq!(detect_file_type("\u{c9}T\u{c9}"), "unknown");
    assert_eq!(detect_file_type("\u{c9}T\u{c9} \u{663}"), "chapter");
}
