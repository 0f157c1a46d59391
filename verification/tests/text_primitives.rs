use hep_ci::text::{
    can_cut, cut, cut_bytes, find, find_text, head, last_piece, lines, split, split_at_most,
    starts_with, strip_prefix, tail, trim, trim_end, trim_start, white,
};

const SAMPLES: [&str; 16] = [
    "",
    " ",
    "a",
    "  a b  ",
    "\t\u{a0}x\u{3000}\n",
    "\r\n\r\n",
    "a\nb",
    "a\r\nb\r\n",
    "a\rb\n\n",
    "\n",
    "a|b|c",
    "||",
    "é: ü#ß",
    "🙂🙂|🙂\n",
    "key: value # note",
    "refs/heads/main",
];

#[test]
fn white_space_is_that_of_unicode() {
    let mut n: u32 = 0;
    while n <= 0x10ffff {
        if let Some(c) = char::from_u32(n) {
            assert_eq!(white(c), c.is_whitespace(), "{:x}", n);
        }
        n += 1;
    }
}

#[test]
fn trimming_agrees_with_std() {
    for s in SAMPLES {
        assert_eq!(trim(s), s.trim());
        assert_eq!(trim_start(s), s.trim_start());
        assert_eq!(trim_end(s), s.trim_end());
    }
}

#[test]
fn lines_agree_with_std() {
    for s in SAMPLES {
        let wanted: Vec<&str> = s.lines().collect();
        assert_eq!(lines(s), wanted);
    }
}

#[test]
fn splitting_agrees_with_std() {
    for s in SAMPLES {
        let wanted: Vec<&str> = s.split('|').collect();
        assert_eq!(split(s, '|'), wanted);
        for n in 0..5usize {
            let wanted: Vec<&str> = s.splitn(n, '|').collect();
            assert_eq!(split_at_most(s, '|', n), wanted);
        }
        assert_eq!(Some(last_piece(s, '/')), s.rsplit('/').next());
    }
}

#[test]
fn searching_agrees_with_std() {
    for s in SAMPLES {
        for pat in ["", "a", "\n", "\r\n", "b|", "🙂|", "zz"] {
            let wanted = s.find(pat).map(|at| s[..at].chars().count());
            assert_eq!(find_text(s, pat), wanted);
            assert_eq!(starts_with(s, pat), s.starts_with(pat));
            assert_eq!(strip_prefix(s, pat), s.strip_prefix(pat));
        }
        for c in ['a', '|', ':', '🙂', 'ü'] {
            let wanted = s.find(c).map(|at| s[..at].chars().count());
            assert_eq!(find(s, c), wanted);
        }
    }
}

#[test]
fn texts_are_cut_between_characters() {
    assert_eq!(cut("🙂é|x", 2), ("🙂é", "|x"));
    assert_eq!(head("🙂é|x", 1), "🙂");
    assert_eq!(tail("🙂é|x", 4), "");
}

#[test]
fn ascii_is_cut_at_any_byte() {
    let id = "0123456789abcdef";
    for n in 0..20usize {
        assert!(can_cut(id, n));
        assert_eq!(cut_bytes(id, n), &id[..n.min(id.len())]);
    }
}

#[test]
fn other_texts_are_cut_between_characters_only() {
    let s = "aé🙂";
    assert!(can_cut(s, 0));
    assert!(can_cut(s, 1));
    assert!(!can_cut(s, 2));
    assert!(can_cut(s, 3));
    assert!(!can_cut(s, 6));
    assert!(can_cut(s, 7));
    assert!(can_cut(s, 40));
    assert_eq!(cut_bytes(s, 3), "aé");
    assert_eq!(cut_bytes(s, 40), s);
}
