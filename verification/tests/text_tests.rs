use mygit::text::{chars_of, split_lines, split_words, trim_str};

fn as_strings(v: Vec<Vec<char>>) -> Vec<String> {
    v.into_iter().map(|l| l.into_iter().collect()).collect()
}

const SAMPLES: [&str; 10] = [
    "",
    "\n",
    "a",
    "a\n",
    "a\r\nb\n\nc",
    "a\rb\n",
    "x\r",
    "  one\ttwo\u{2003}three \n",
    "\u{85}mid\u{a0}dle\u{3000}",
    "k v\nk2 v2\n",
];

#[test]
fn lines_follow_str_lines() {
    for s in SAMPLES {
        let got = as_strings(split_lines(&chars_of(s)));
        let want: Vec<String> = s.lines().map(|l| l.to_string()).collect();
        assert_eq!(got, want, "lines of {s:?}");
    }
}

#[test]
fn words_follow_split_whitespace() {
    for s in SAMPLES {
        let got = as_strings(split_words(&chars_of(s)));
        let want: Vec<String> = s.split_whitespace().map(|w| w.to_string()).collect();
        assert_eq!(got, want, "words of {s:?}");
    }
}

#[test]
fn trim_follows_str_trim() {
    for s in SAMPLES {
        assert_eq!(trim_str(s), s.trim(), "trim of {s:?}");
    }
}
