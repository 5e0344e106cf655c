// The word splitter and the three stripping passes are plain character
// scans; these tests hold them against the regular expressions that name
// the same languages, on texts that exercise the edge cases.

use regex::Regex;
use text_retrieval::preprocessing::split_words;

fn words_after(text: &str, tags: bool, entities: bool, brackets: bool) -> Vec<String> {
    split_words(text, tags, entities, brackets, None)
}

#[test]
fn tag_stripping_matches_reference_pattern() {
    let pattern = Regex::new(r"<.*?>").unwrap();
    let texts = [
        "<b>Hello</b> world",
        "a <i>b</i> c <un closed",
        "<a\nb> x",
        "<<nested>> v",
        "no tags at all",
        "<>empty<> tag",
    ];
    for text in texts {
        let stripped = pattern.replace_all(text, "").to_string();
        assert_eq!(
            words_after(text, true, false, false),
            words_after(&stripped, false, false, false),
            "tag stripping diverged on {:?}",
            text
        );
    }
}

#[test]
fn bracket_stripping_matches_reference_pattern() {
    let pattern = Regex::new(r"\[.*?\]").unwrap();
    let texts = ["[tag] word [other]", "a [b [c] d] e", "open [only", "x [\ny] z"];
    for text in texts {
        let stripped = pattern.replace_all(text, "").to_string();
        assert_eq!(
            words_after(text, false, false, true),
            words_after(&stripped, false, false, false),
            "bracket stripping diverged on {:?}",
            text
        );
    }
}

#[test]
fn entity_stripping_matches_reference_pattern() {
    let pattern = Regex::new(r"&[a-zA-Z][-.a-zA-Z0-9]*[^a-zA-Z0-9]").unwrap();
    let texts = [
        "fish &amp; chips",
        "x &a-b",
        "x &ab",
        "&a-",
        "&ab.cd",
        "a && b",
        "&1no &x2; yes",
        "tail&copy",
        "&amp;&nbsp;run",
        "& lone ampersand",
    ];
    for text in texts {
        let stripped = pattern.replace_all(text, "").to_string();
        assert_eq!(
            words_after(text, false, true, false),
            words_after(&stripped, false, false, false),
            "entity stripping diverged on {:?}",
            text
        );
    }
}

#[test]
fn word_split_matches_reference_pattern() {
    let pattern =
        Regex::new(r#"\s|\.|:|\?|\(|\)|\[|\]|\{|\}|<|>|'|!|"|-|,|;|\$|\*|%|#"#).unwrap();
    let texts = [
        "the quick  brown fox",
        "a.b:c?d(e)f[g]h{i}j<k>l'm!n\"o-p,q;r$s*t%u#v",
        "tabs\tand\nnewlines\r\nmixed",
        "unicode\u{2003}spaces\u{3000}too",
        "",
        "   ",
    ];
    for text in texts {
        let expected: Vec<String> =
            pattern.split(text).filter(|s| s.len() > 0).map(|s| s.to_string()).collect();
        assert_eq!(words_after(text, false, false, false), expected, "split diverged on {:?}", text);
    }
    let with_min: Vec<String> = pattern
        .split("ab abc a abcd")
        .filter(|s| s.len() > 2)
        .map(|s| s.to_string())
        .collect();
    assert_eq!(split_words("ab abc a abcd", false, false, false, Some(2)), with_min);
}
