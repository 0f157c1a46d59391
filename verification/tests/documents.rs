use hep_ci::yaml::{
    indent_of, is_readable, parse_map, parse_seq, peek_content, peek_indent, strip_comment,
    unquote, yaml_parse, YamlValue,
};

fn show(v: &YamlValue) -> String {
    match v {
        YamlValue::Scalar(s) => format!("<{}>", s),
        YamlValue::Mapping(pairs) => {
            let parts: Vec<String> =
                pairs.iter().map(|(k, v)| format!("{}={}", k, show(v))).collect();
            format!("{{{}}}", parts.join(","))
        }
        YamlValue::Sequence(items) => {
            let parts: Vec<String> = items.iter().map(show).collect();
            format!("[{}]", parts.join(","))
        }
    }
}

fn read(text: &str) -> String {
    assert!(is_readable(text));
    show(&yaml_parse(text).unwrap())
}

#[test]
fn scalars_stand_behind_keys() {
    assert_eq!(read("name: build\non: push\n"), "{name=<build>,on=<push>}");
    assert_eq!(read("a:b:c\n"), "{a=<b:c>}");
    assert_eq!(read(" spaced key :  value  \n"), "{spaced key=<value>}");
    assert_eq!(read("url: http://x/y#z\n"), "{url=<http://x/y#z>}");
}

#[test]
fn an_empty_text_is_an_empty_map() {
    assert_eq!(read(""), "{}");
    assert_eq!(read("\n  \n# only a comment\n"), "{}");
}

#[test]
fn quotes_are_taken_off() {
    assert_eq!(read("a: \"x y\"\nb: 'p'\nc: \"it's\"\n"), "{a=<x y>,b=<p>,c=<it's>}");
    assert_eq!(read("a: \"\"\nb: 'x\"\n"), "{a=<>,b=<'x\">}");
    assert_eq!(read("a: \"x\" y\n"), "{a=<\"x\" y>}");
}

#[test]
fn maps_nest_by_indentation() {
    let text = "a:\n  b:\n    c: 1\n    d: 2\n  e: 3\nf: 4\n";
    assert_eq!(read(text), "{a={b={c=<1>,d=<2>},e=<3>},f=<4>}");
}

#[test]
fn a_key_without_children_is_an_empty_scalar() {
    assert_eq!(read("a:\nb: 1\n"), "{a=<>,b=<1>}");
    assert_eq!(read("a:\n"), "{a=<>}");
}

#[test]
fn lists_hold_scalars_and_small_maps() {
    let text = "steps:\n  - make\n  - name: test\n    run: ./app --test\n  - name: ship\n";
    assert_eq!(
        read(text),
        "{steps=[<make>,{name=<test>,run=<./app --test>},{name=<ship>}]}"
    );
}

#[test]
fn items_keep_their_quotes() {
    assert_eq!(read("a:\n  - \"x\"\n  - 'y z'\n"), "{a=[<\"x\">,<'y z'>]}");
}

#[test]
fn a_lone_dash_has_its_value_below() {
    let text = "a:\n  -\n    b:\n      c: 1\n  -\n    - x\n    - y\n  -\n  - z\n";
    assert_eq!(read(text), "{a=[{b={c=<1>}},[<x>,<y>],{},<z>]}");
}

#[test]
fn further_pairs_of_an_item_may_be_deeper() {
    let text = "a:\n  - name: x\n      run: y\n    stop\n";
    assert_eq!(read(text), "{a=[{name=<x>,run=<y>}]}");
}

#[test]
fn an_item_among_keys_turns_the_map_into_a_list() {
    assert_eq!(read("a: 1\n- x\n- y\nb: 2\n"), "[<x>,<y>]");
}

#[test]
fn lines_without_a_key_are_passed_over() {
    assert_eq!(read("a: 1\nnonsense\nb: 2\n"), "{a=<1>,b=<2>}");
}

#[test]
fn comments_and_empty_lines_say_nothing() {
    let plain = "a:\n  b: 1\n  c:\n    - x\n";
    let noisy = "# head\n\na: # of a\n  \n    # deep\n  b: 1   # one\n  c:\r\n\t\n    - x # item\n#\n";
    assert_eq!(read(noisy), read(plain));
    assert_eq!(read("a: \"x # y\" # z\n"), "{a=<x # y>}");
}

#[test]
fn comments_begin_behind_a_space() {
    assert_eq!(strip_comment("a: b # c"), "a: b");
    assert_eq!(strip_comment("a: b#c"), "a: b#c");
    assert_eq!(strip_comment("#c"), "");
    assert_eq!(strip_comment("a: 'b # c' # d"), "a: 'b # c'");
    assert_eq!(strip_comment("a: \"b' # c\"  "), "a: \"b' # c\"");
    assert_eq!(strip_comment("a: it's # c"), "a: it's # c");
    assert_eq!(strip_comment("a\t# b"), "a\t# b");
    assert_eq!(strip_comment("ü # b"), "ü");
}

#[test]
fn indentation_counts_spaces() {
    assert_eq!(indent_of("a"), 0);
    assert_eq!(indent_of("   a "), 3);
    assert_eq!(indent_of("\t a"), 0);
    assert_eq!(indent_of("  "), 2);
}

#[test]
fn unquoting_takes_equal_quotes_only() {
    assert_eq!(unquote(" \"a\" "), "a");
    assert_eq!(unquote("'a'"), "a");
    assert_eq!(unquote("\"a'"), "\"a'");
    assert_eq!(unquote("''"), "");
    assert_eq!(unquote(" a "), "a");
    assert_eq!(unquote(""), "");
}

#[test]
fn a_lone_quote_cannot_be_read() {
    assert!(!is_readable("a: \"\n"));
    assert!(!is_readable("a: '\n"));
    assert!(!is_readable("a:\n  - b: '\n"));
    assert!(!is_readable("a:\n  - b: 1\n    c: \"\n"));
    assert!(is_readable("a:\n  - \"\n"));
}

#[test]
fn peeking_passes_over_empty_lines() {
    let ls = ["a:", "", "  # c", "   b: 1  ", "x"];
    assert_eq!(peek_indent(&ls, 1), 3);
    assert_eq!(peek_content(&ls, 1), "b: 1");
    assert_eq!(peek_indent(&ls, 0), 0);
    assert_eq!(peek_indent(&ls, 5), -1);
    assert_eq!(peek_content(&ls, 5), "");
    assert_eq!(peek_indent(&["", " # x"], 0), -1);
}

#[test]
fn blocks_end_where_the_indentation_does() {
    let ls = ["  a: 1", "  b: 2", "c: 3"];
    let mut pos: usize = 0;
    let v = parse_map(&ls, &mut pos, 0).unwrap();
    assert_eq!(show(&v), "{a=<1>,b=<2>}");
    assert_eq!(pos, 2);
    let ls = ["  - x", "  - y", "  z: 1"];
    let mut pos: usize = 0;
    let v = parse_seq(&ls, &mut pos, -1).unwrap();
    assert_eq!(show(&v), "[<x>,<y>]");
    assert_eq!(pos, 2);
}

#[test]
fn a_document_in_the_layout_is_read_back() {
    let text = "name: \"a # b\"\nempty: \"\"\nmap:\n  key: it's \"so\"\nlist:\n  - one\n  - k: \" v \"\n    l: '\"'\n  -\n    deep:\n      - two\n  -\n    - three\n";
    assert_eq!(
        read(text),
        "{name=<a # b>,empty=<>,map={key=<it's \"so\">},list=[<one>,{k=< v >,l=<\">},{deep=[<two>]},[<three>]]}"
    );
}

#[test]
fn values_are_found_by_their_keys() {
    let v = yaml_parse("a: 1\nb:\n  - x\nc:\n  d: 2\na: 3\n").unwrap();
    assert_eq!(v.get("a").unwrap().as_str(), Some("1"));
    assert!(v.get("z").is_none());
    assert!(v.get("a").unwrap().get("x").is_none());
    assert_eq!(v.get("b").unwrap().as_seq().unwrap().len(), 1);
    assert_eq!(v.get("c").unwrap().as_map().unwrap().len(), 1);
    assert!(v.get("b").unwrap().as_map().is_none());
    assert!(v.get("c").unwrap().as_seq().is_none());
    assert!(v.as_str().is_none());
    assert_eq!(v.str_or("a", "none"), "1");
    assert_eq!(v.str_or("b", "none"), "none");
    assert_eq!(v.str_or("z", "none"), "none");
}

#[test]
fn only_differences_of_indentation_matter() {
    let text = "a:\n  b: 1 # one\n\n#c\n  c:\n    - x: 1\n      y: 2\n    - z\nd: 4";
    for n in [0usize, 1, 3, 40] {
        let pad = " ".repeat(n);
        let shifted: Vec<String> = text.split('\n').map(|l| format!("{}{}", pad, l)).collect();
        assert_eq!(read(&shifted.join("\n")), read(text));
    }
}
