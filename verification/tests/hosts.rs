use hosts_manipulator::Hosts;
use std::collections::HashMap;

fn table_of(pairs: &[(&str, &str)]) -> Hosts {
    let mut hosts = Hosts::new();
    for (hostname, address) in pairs {
        hosts.insert(hostname.to_string(), address.to_string());
    }
    hosts
}

fn as_map(hosts: &Hosts) -> HashMap<String, String> {
    hosts.entries().into_iter().collect()
}

#[test]
fn to_string_test() {
    let mut hosts = Hosts::new();
    hosts.insert("localhost".to_string(), "127.0.0.1".to_string());
    hosts.insert("example.com".to_string(), "0.0.0.0".to_string());

    assert_eq!(hosts.to_string(), "0.0.0.0 example.com\n127.0.0.1 localhost");
}

#[test]
fn to_string_conflict_test() {
    let mut hosts = Hosts::new();
    hosts.insert("localhost".to_string(), "127.0.0.1".to_string());
    hosts.insert("example.com".to_string(), "0.0.0.0".to_string());
    hosts.insert("example.com".to_string(), "0.0.0.1".to_string());

    assert_eq!(hosts.to_string(), "0.0.0.1 example.com\n127.0.0.1 localhost");
}

#[test]
fn from_string_test() {
    let hosts_str = "127.0.0.1 localhost\n0.0.0.0 example.com";

    let hosts_map = Hosts::from(hosts_str);

    assert_eq!(
        as_map(&hosts_map),
        HashMap::from([
            ("localhost".to_string(), "127.0.0.1".to_string()),
            ("example.com".to_string(), "0.0.0.0".to_string()),
        ])
    );
}

#[test]
fn comment_removal_test() {
    let hosts_str = "127.0.0.1 localhost\n#0.0.0.0 example.com";

    let hosts_map = Hosts::from(hosts_str);

    assert_eq!(
        as_map(&hosts_map),
        HashMap::from([("localhost".to_string(), "127.0.0.1".to_string())])
    )
}

#[test]
fn new_table_is_empty() {
    let hosts = Hosts::new();
    assert_eq!(hosts.len(), 0);
    assert!(hosts.entries().is_empty());
    assert_eq!(hosts.get("localhost"), None);
}

#[test]
fn default_table_is_empty() {
    let hosts = Hosts::default();
    assert_eq!(hosts.len(), 0);
    assert_eq!(hosts.to_string(), "");
}

#[test]
fn empty_text_gives_empty_table() {
    let hosts = Hosts::from("");
    assert_eq!(hosts.len(), 0);
    assert!(hosts.entries().is_empty());
}

#[test]
fn empty_table_gives_empty_text() {
    assert_eq!(Hosts::new().to_string(), "");
}

#[test]
fn later_line_wins() {
    let hosts = Hosts::from("127.0.0.1 localhost\n0.0.0.1 localhost");
    assert_eq!(hosts.len(), 1);
    assert_eq!(hosts.get("localhost"), Some(&"0.0.0.1".to_string()));
}

#[test]
fn insert_replaces_the_address() {
    let mut hosts = table_of(&[("localhost", "127.0.0.1")]);
    hosts.insert("localhost".to_string(), "::1".to_string());
    assert_eq!(hosts.len(), 1);
    assert_eq!(hosts.get("localhost"), Some(&"::1".to_string()));
}

#[test]
fn get_finds_only_what_was_inserted() {
    let hosts = table_of(&[("localhost", "127.0.0.1"), ("example.com", "0.0.0.0")]);
    assert_eq!(hosts.len(), 2);
    assert_eq!(hosts.get("example.com"), Some(&"0.0.0.0".to_string()));
    assert_eq!(hosts.get("example.org"), None);
    assert_eq!(hosts.get(""), None);
}

#[test]
fn merged_in_table_wins() {
    let mut a = table_of(&[("example.com", "2.2.2.2")]);
    let b = table_of(&[("example.com", "1.1.1.1")]);
    a.extend(b);
    assert_eq!(a.len(), 1);
    assert_eq!(a.get("example.com"), Some(&"1.1.1.1".to_string()));
}

#[test]
fn merge_keeps_what_only_one_table_has() {
    let mut a = table_of(&[("localhost", "127.0.0.1"), ("example.com", "2.2.2.2")]);
    let b = table_of(&[("example.com", "1.1.1.1"), ("example.org", "3.3.3.3")]);
    a.extend(b);
    assert_eq!(
        a.to_string(),
        "1.1.1.1 example.com\n3.3.3.3 example.org\n127.0.0.1 localhost"
    );
}

#[test]
fn merge_with_empty_tables() {
    let mut a = table_of(&[("localhost", "127.0.0.1")]);
    a.extend(Hosts::new());
    assert_eq!(a.to_string(), "127.0.0.1 localhost");

    let mut b = Hosts::new();
    b.extend(a);
    assert_eq!(b.to_string(), "127.0.0.1 localhost");
}

#[test]
fn merge_twice_keeps_one_entry_per_hostname() {
    let mut a = table_of(&[("b", "1"), ("a", "2")]);
    a.extend(table_of(&[("c", "3"), ("a", "4")]));
    a.extend(table_of(&[("a", "5"), ("d", "6")]));
    assert_eq!(a.len(), 4);
    assert_eq!(a.to_string(), "5 a\n1 b\n3 c\n6 d");
}

#[test]
fn line_without_space_gives_no_entry() {
    let hosts = Hosts::from("garbage");
    assert_eq!(hosts.len(), 0);

    let hosts = Hosts::from("garbage\n127.0.0.1 localhost\nmore-garbage");
    assert_eq!(hosts.to_string(), "127.0.0.1 localhost");
}

#[test]
fn empty_lines_give_no_entry() {
    let hosts = Hosts::from("\n\n127.0.0.1 localhost\n\n");
    assert_eq!(hosts.to_string(), "127.0.0.1 localhost");

    let hosts = Hosts::from("\n");
    assert_eq!(hosts.len(), 0);
}

#[test]
fn final_line_feed_is_optional() {
    let with = Hosts::from("127.0.0.1 localhost\n0.0.0.0 example.com\n");
    let without = Hosts::from("127.0.0.1 localhost\n0.0.0.0 example.com");
    assert_eq!(with.to_string(), without.to_string());
    assert_eq!(with.len(), 2);
}

#[test]
fn carriage_return_before_line_feed_ends_the_line() {
    let hosts = Hosts::from("127.0.0.1 localhost\r\n0.0.0.0 example.com\r\n");
    assert_eq!(hosts.get("localhost"), Some(&"127.0.0.1".to_string()));
    assert_eq!(hosts.get("example.com"), Some(&"0.0.0.0".to_string()));
    assert_eq!(hosts.len(), 2);
}

#[test]
fn only_one_carriage_return_is_taken_off() {
    let hosts = Hosts::from("127.0.0.1 localhost\r\r\n");
    assert_eq!(hosts.get("localhost\r"), Some(&"127.0.0.1".to_string()));
    assert_eq!(hosts.len(), 1);
}

#[test]
fn carriage_return_at_the_end_of_the_text_stays() {
    let hosts = Hosts::from("127.0.0.1 localhost\r");
    assert_eq!(hosts.get("localhost\r"), Some(&"127.0.0.1".to_string()));
    assert_eq!(hosts.get("localhost"), None);
}

#[test]
fn line_is_split_at_its_first_space() {
    let hosts = Hosts::from("127.0.0.1 localhost alias other");
    assert_eq!(hosts.len(), 1);
    assert_eq!(hosts.get("localhost alias other"), Some(&"127.0.0.1".to_string()));
}

#[test]
fn line_that_begins_with_a_space_has_an_empty_address() {
    let hosts = Hosts::from(" localhost");
    assert_eq!(hosts.get("localhost"), Some(&"".to_string()));
}

#[test]
fn line_that_ends_with_its_only_space_has_an_empty_hostname() {
    let hosts = Hosts::from("127.0.0.1 ");
    assert_eq!(hosts.get(""), Some(&"127.0.0.1".to_string()));
    assert_eq!(hosts.to_string(), "127.0.0.1 ");
}

#[test]
fn tab_is_no_separator() {
    let hosts = Hosts::from("127.0.0.1\tlocalhost");
    assert_eq!(hosts.len(), 0);
}

#[test]
fn comment_sign_counts_only_at_the_start() {
    let hosts = Hosts::from(" #localhost\n1.2.3.4 host #note\n# 5.6.7.8 other");
    assert_eq!(hosts.len(), 2);
    assert_eq!(hosts.get("#localhost"), Some(&"".to_string()));
    assert_eq!(hosts.get("host #note"), Some(&"1.2.3.4".to_string()));
}

#[test]
fn comment_only_text_gives_empty_table() {
    let hosts = Hosts::from("# one\n#two\n#");
    assert_eq!(hosts.len(), 0);
    assert_eq!(hosts.to_string(), "");
}

#[test]
fn characters_beyond_ascii_are_kept() {
    let hosts = Hosts::from("10.0.0.1 bücher.example\n10.0.0.2 例え.テスト");
    assert_eq!(hosts.get("bücher.example"), Some(&"10.0.0.1".to_string()));
    assert_eq!(hosts.get("例え.テスト"), Some(&"10.0.0.2".to_string()));
    assert_eq!(hosts.to_string(), "10.0.0.1 bücher.example\n10.0.0.2 例え.テスト");
}

#[test]
fn entries_come_in_ascending_order_of_hostname() {
    let hosts = table_of(&[("b", "1"), ("a", "3"), ("c", "2"), ("ab", "0"), ("", "9")]);
    assert_eq!(
        hosts.entries(),
        vec![
            ("".to_string(), "9".to_string()),
            ("a".to_string(), "3".to_string()),
            ("ab".to_string(), "0".to_string()),
            ("b".to_string(), "1".to_string()),
            ("c".to_string(), "2".to_string()),
        ]
    );
}

#[test]
fn order_goes_by_code_point() {
    let hosts = table_of(&[("a", "1"), ("B", "2"), ("é", "3"), ("z", "4"), ("1", "5")]);
    assert_eq!(hosts.to_string(), "5 1\n2 B\n1 a\n4 z\n3 é");
}

#[test]
fn output_does_not_depend_on_the_order_of_insertion() {
    let one = table_of(&[("a", "1"), ("b", "2"), ("c", "3")]);
    let other = table_of(&[("c", "3"), ("a", "1"), ("b", "2")]);
    assert_eq!(one.to_string(), "1 a\n2 b\n3 c");
    assert_eq!(one.to_string(), other.to_string());
}

#[test]
fn single_entry_has_no_line_feed() {
    let hosts = table_of(&[("localhost", "127.0.0.1")]);
    assert_eq!(hosts.to_string(), "127.0.0.1 localhost");
}

#[test]
fn rendering_twice_gives_the_same_text() {
    let text = "# local\n127.0.0.1 localhost\n\n0.0.0.0 example.com\nnoise\n::1 localhost\n";
    let once = Hosts::from(text).to_string();
    assert_eq!(once, "0.0.0.0 example.com\n::1 localhost");
    let twice = Hosts::from(once.as_str()).to_string();
    assert_eq!(twice, once);
}

#[test]
fn rendered_table_is_read_back() {
    let hosts = table_of(&[("localhost", "127.0.0.1"), ("a b", "x"), ("zone\r", "y")]);
    let text = hosts.to_string();
    assert_eq!(text, "x a b\n127.0.0.1 localhost\ny zone\r");
    let back = Hosts::from(text.as_str());
    assert_eq!(back.entries(), hosts.entries());
    assert_eq!(back.to_string(), text);
}

#[test]
fn carriage_return_inside_the_text_is_not_read_back() {
    let hosts = table_of(&[("localhost", "127.0.0.1"), ("last\r", "y")]);
    let text = hosts.to_string();
    assert_eq!(text, "y last\r\n127.0.0.1 localhost");
    let back = Hosts::from(text.as_str());
    assert_eq!(back.get("last\r"), None);
    assert_eq!(back.get("last"), Some(&"y".to_string()));
    assert_eq!(back.to_string(), "y last\n127.0.0.1 localhost");
}

#[test]
fn address_with_a_space_is_not_read_back() {
    let hosts = table_of(&[("h1", "a z"), ("h2", "b a")]);
    let text = hosts.to_string();
    assert_eq!(text, "a z h1\nb a h2");
    let back = Hosts::from(text.as_str());
    assert_eq!(back.get("z h1"), Some(&"a".to_string()));
    assert_eq!(back.to_string(), "b a h2\na z h1");
}

fn read_line_by_line(text: &str) -> HashMap<String, String> {
    let mut map = HashMap::new();
    for line in text.lines() {
        if line.starts_with('#') {
            continue;
        }
        if let Some((address, hostname)) = line.split_once(' ') {
            map.insert(hostname.to_string(), address.to_string());
        }
    }
    map
}

#[test]
fn agrees_with_reading_line_by_line() {
    let texts = [
        "",
        "\n",
        "\r",
        "\r\n",
        " ",
        "#",
        "a b",
        "a b\n",
        "a b\r\n",
        "a b\r",
        "a b\r\r\n",
        "a b\n\r",
        "a \r\nb c",
        "\r \n",
        " \r",
        "a b\nc d\na e\nc b",
        "# a b\n#c d\n #e f",
        "a  b\n\nc\td\n\n\ne f g h\n",
        "1.1.1.1 é\n2.2.2.2 ü ö\n3.3.3.3\u{a0}x\n4.4.4.4 \u{1f980}\n",
        "127.0.0.1 localhost\r\n::1 localhost\r\n#x y\r\nfe80::1%lo0 localhost\r",
    ];
    for text in texts {
        assert_eq!(as_map(&Hosts::from(text)), read_line_by_line(text), "{:?}", text);
    }
}

#[test]
fn entries_agree_with_sorting_the_pairs() {
    let pairs = [
        ("b", "2"),
        ("a", "9"),
        ("ab", "1"),
        ("B", "3"),
        ("", "4"),
        ("a b", "5"),
        ("é", "6"),
        ("z", "7"),
        ("\u{10000}", "8"),
        ("\u{ffff}", "0"),
    ];
    let hosts = table_of(&pairs);
    let mut expected: Vec<(String, String)> =
        pairs.iter().map(|(h, a)| (h.to_string(), a.to_string())).collect();
    expected.sort();
    assert_eq!(hosts.entries(), expected);
    assert_eq!(hosts.len(), pairs.len());
}
