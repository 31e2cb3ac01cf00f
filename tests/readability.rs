use bito_lint::markdown::{remove_markdown_links, remove_pattern, strip_markdown};
use bito_lint::readability::{
    check, count_sentences, count_syllables, count_word_syllables, count_words, Readability,
};

#[test]
fn test_syllable_counts() {
    assert_eq!(count_word_syllables("the"), 1);
    assert_eq!(count_word_syllables("hello"), 2);
    assert_eq!(count_word_syllables("beautiful"), 3);
    assert_eq!(count_word_syllables("a"), 1);
}

#[test]
fn test_strip_markdown_removes_code_blocks() {
    let input = "Some text.\n```rust\nlet x = 1;\n```\nMore text.";
    let result = strip_markdown(input);
    assert!(!result.contains("let x"));
    assert!(result.contains("Some text"));
    assert!(result.contains("More text"));
}

#[test]
fn test_strip_markdown_removes_frontmatter() {
    let input = "---\nstatus: accepted\ndate: 2026-02-07\n---\n\nSome text.";
    let result = strip_markdown(input);
    assert!(!result.contains("status"));
    assert!(result.contains("Some text"));
}

#[test]
fn test_strip_markdown_removes_headers() {
    let input = "# Header\n\nSome text.\n\n## Subheader\n\nMore text.";
    let result = strip_markdown(input);
    assert!(!result.contains("Header"));
    assert!(result.contains("Some text"));
    assert!(result.contains("More text"));
}

#[test]
fn strip_markdown_exact_output() {
    let input = "> Quoted **bold** _it_ text.\n| a | b |\nSee [the docs](http://x) and `code` here.\r\n";
    assert_eq!(
        strip_markdown(input),
        "Quoted bold it text. See the docs and  here. "
    );
}

#[test]
fn plain_text_keeps_its_words() {
    let input = "One two three.\n  Four   five.\n\nSix";
    let out = strip_markdown(input);
    assert_eq!(out, "One two three. Four   five. Six ");
    let a: Vec<&str> = out.split_whitespace().collect();
    let b: Vec<&str> = input.split_whitespace().collect();
    assert_eq!(a, b);
}

#[test]
fn links_and_brackets() {
    assert_eq!(remove_markdown_links("a [t](u) b"), "a t b");
    assert_eq!(remove_markdown_links("![img](p.png)"), "!img");
    assert_eq!(remove_markdown_links("x [open"), "x [open");
    assert_eq!(remove_markdown_links("[a] b"), "a b");
    assert_eq!(remove_markdown_links("[a](b"), "a");
}

#[test]
fn inline_code_removed() {
    assert_eq!(remove_pattern("a `b` c `d", '`', '`'), "a  c ");
    assert_eq!(remove_pattern("none", '`', '`'), "none");
}

#[test]
fn counting() {
    assert_eq!(count_sentences("No end"), 1);
    assert_eq!(count_sentences("A. B! C? D: e"), 4);
    assert_eq!(count_words("  a  b\tc\n"), 3);
    assert_eq!(count_words(""), 0);
    assert_eq!(count_syllables("hello beautiful the ..."), 6);
}

#[test]
fn syllable_edge_cases() {
    assert_eq!(count_word_syllables("..."), 0);
    assert_eq!(count_word_syllables("(Cat),"), 1);
    assert_eq!(count_word_syllables("make"), 1);
    assert_eq!(count_word_syllables("rhythm"), 1);
    assert_eq!(count_word_syllables("HELLO!"), 2);
    assert_eq!(count_word_syllables("xyz"), 1);
    assert_eq!(count_word_syllables("été"), 1);
}

#[test]
fn short_words_have_one_syllable() {
    for w in ["a", "I", "eye", "you", "the", "by", "ok"] {
        assert_eq!(count_word_syllables(w), 1, "{w}");
    }
}

#[test]
fn blank_documents_skip() {
    assert!(matches!(check("", None), Readability::Skip));
    assert!(matches!(check("  \n\t\n ", Some(800)), Readability::Skip));
    assert!(matches!(check("# Only a heading\n```\ncode\n```", None), Readability::Skip));
}

#[test]
fn grade_is_exact() {
    // 3 words, 1 sentence, 3 syllables: 0.39*3 + 11.8*1 - 15.59 = -2.62
    match check("The cat sat.", None) {
        Readability::Grade(sc) => {
            assert_eq!((sc.words, sc.sentences, sc.syllables), (3, 1, 3));
        }
        _ => panic!("expected a grade"),
    }
    assert!(matches!(check("The cat sat.", Some(-262)), Readability::Pass(_)));
    assert!(matches!(check("The cat sat.", Some(-263)), Readability::Fail(_)));
}

#[test]
fn more_syllables_raise_the_grade() {
    // 2 words, 1 sentence: 2 syllables and 6 syllables.
    match (check("cat dog.", Some(0)), check("beautiful beautiful.", Some(0))) {
        (Readability::Pass(a), Readability::Fail(b)) => {
            assert_eq!(a.syllables, 2);
            assert_eq!(b.syllables, 6);
        }
        _ => panic!("unexpected verdicts"),
    }
}
