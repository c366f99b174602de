use lib::servers::{parse_servers, servers_text};

fn pair(n: &str, a: &str) -> (String, String) {
    (n.to_string(), a.to_string())
}

#[test]
fn server_lines_split_at_the_first_bar() {
    let v = parse_servers("Home|127.0.0.1:25565\nbad line\r\nLAN|10.0.0.2|x\n\n|\r\nlast|y\r");
    assert_eq!(
        v,
        vec![
            pair("Home", "127.0.0.1:25565"),
            pair("LAN", "10.0.0.2|x"),
            pair("", ""),
            pair("last", "y\r"),
        ]
    );
    assert!(parse_servers("").is_empty());
    assert!(parse_servers("\n\n").is_empty());
}

#[test]
fn server_text_joins_lines() {
    let v = vec![pair("A", "a:1"), pair("B", "")];
    assert_eq!(servers_text(&v), "A|a:1\nB|");
    assert_eq!(servers_text(&[]), "");
}

#[test]
fn server_list_reads_back() {
    let v = vec![pair("Home", "127.0.0.1"), pair("", "x|y"), pair("Été", "")];
    assert_eq!(parse_servers(&servers_text(&v)), v);
}
