use tran::recolor_textfile;

#[test]
fn replaces_every_occurrence() {
    let contents = "a { color: #112233; }\nb { background: #112233 }\nc { color: #445566 }\n";
    assert_eq!(
        recolor_textfile(contents, "#abcdef", "#112233"),
        "a { color: #abcdef; }\nb { background: #abcdef }\nc { color: #445566 }\n"
    );
    assert_eq!(recolor_textfile(contents, "#abcdef", "#778899"), contents);
}

#[test]
fn agrees_with_the_standard_replace() {
    let texts = ["", "a", "aa", "aaa", "aaaa", "abab", "ababa", "xaay", "é#é#é", "##", "a#b#c", "日本語の本"];
    let words = ["", "a", "aa", "ab", "aba", "#", "é", "本", "xaay", "longer than the text"];
    let news = ["", "a", "b", "aa", "#00ff00", "é"];
    for text in texts {
        for word in words {
            for new in news {
                assert_eq!(
                    recolor_textfile(text, new, word),
                    text.replace(word, new),
                    "{:?} {:?} {:?}",
                    text,
                    word,
                    new
                );
            }
        }
    }
}

#[test]
fn occurrences_do_not_overlap() {
    assert_eq!(recolor_textfile("aaaaa", "b", "aa"), "bba");
    assert_eq!(recolor_textfile("ababab", "x", "aba"), "xbab");
}

#[test]
fn what_was_put_in_is_not_replaced_again() {
    assert_eq!(recolor_textfile("ab", "aa", "a"), "aab");
    assert_eq!(recolor_textfile("#111111 #222222", "#222222", "#111111"), "#222222 #222222");
}

#[test]
fn an_empty_word_stands_around_every_character() {
    assert_eq!(recolor_textfile("abc", "-", ""), "-a-b-c-");
    assert_eq!(recolor_textfile("", "-", ""), "-");
}
