use mcping_api::minecraft::srv;

/// An answer to a query for a name, with records of priority, port and target.
fn answer(name: &str, records: &[(u16, u16, &str)]) -> Vec<u8> {
    let mut m = srv::build_query(name);
    m[7] = records.len() as u8;
    for (priority, port, target) in records {
        m.extend_from_slice(&[0xC0, 12]);
        m.extend_from_slice(&[0, 33, 0, 1, 0, 0, 0, 60]);
        let mut data = Vec::new();
        data.extend_from_slice(&priority.to_be_bytes());
        data.extend_from_slice(&[0, 5]);
        data.extend_from_slice(&port.to_be_bytes());
        for label in target.split('.') {
            if !label.is_empty() {
                data.push(label.len() as u8);
                data.extend_from_slice(label.as_bytes());
            }
        }
        data.push(0);
        m.extend_from_slice(&(data.len() as u16).to_be_bytes());
        m.extend_from_slice(&data);
    }
    m
}

#[test]
fn the_query_has_its_known_bytes() {
    let q = srv::build_query("a.bc");
    assert_eq!(
        q,
        vec![
            0x12, 0x34, 1, 0, 0, 1, 0, 0, 0, 0, 0, 0, 1, b'a', 2, b'b', b'c', 0, 0, 0x21, 0, 1
        ]
    );
    let long = "x".repeat(64);
    assert_eq!(srv::build_query(&format!("a..{long}.b")), srv::build_query("a.b"));
    assert_eq!(srv::service_name("mc.example.org"), "_minecraft._tcp.mc.example.org");
}

#[test]
fn names_are_read_back() {
    let q = srv::build_query("_minecraft._tcp.例子.org");
    assert_eq!(
        srv::read_name(&q, 12),
        Some(("_minecraft._tcp.例子.org".to_string(), q.len() - 4))
    );
    assert_eq!(srv::skip_name(&q, 12), Some(q.len() - 4));
}

#[test]
fn names_may_go_on_elsewhere() {
    let m = [3, b'o', b'r', b'g', 0, 1, b'a', 0xC0, 0, 9];
    assert_eq!(srv::read_name(&m, 5), Some(("a.org".to_string(), 9)));
    assert_eq!(srv::read_name(&m, 7), Some(("org".to_string(), 9)));
    assert_eq!(srv::read_name(&[0xC0, 0], 0), None);
    assert_eq!(srv::read_name(&[0xC0], 0), None);
    assert_eq!(srv::read_name(&[5, b'a'], 0), None);
    assert_eq!(srv::read_name(&[], 0), None);
    assert_eq!(srv::read_name(&[0], 0), Some((String::new(), 1)));
}

#[test]
fn sixty_four_jumps_are_followed() {
    let chain = |n: usize| {
        let mut m: Vec<u8> = Vec::new();
        for i in 0..n {
            let to = 2 * (i + 1);
            m.extend_from_slice(&[0xC0 | (to >> 8) as u8, to as u8]);
        }
        m.push(0);
        m
    };
    assert_eq!(srv::read_name(&chain(64), 0), Some((String::new(), 2)));
    assert_eq!(srv::read_name(&chain(65), 0), None);
}

#[test]
fn the_record_with_the_lowest_priority_number_is_used() {
    let m = answer("h", &[(20, 1, "a.b"), (10, 2, "c"), (10, 3, "d"), (30, 4, "e")]);
    assert_eq!(srv::parse_srv(&m), Some(("c".to_string(), 2)));
    let one = answer("_minecraft._tcp.h", &[(0, 25577, "play.example.org")]);
    assert_eq!(srv::parse_srv(&one), Some(("play.example.org".to_string(), 25577)));
    let root = answer("h", &[(0, 1, ""), (5, 2, "x")]);
    assert_eq!(srv::parse_srv(&root), Some(("x".to_string(), 2)));
}

#[test]
fn answers_without_a_record() {
    assert_eq!(srv::parse_srv(&[0; 11]), None);
    assert_eq!(srv::parse_srv(&srv::build_query("h")), None);
    let mut other = answer("h", &[(1, 2, "a")]);
    let at = other.len() - 4 - 6 - 1 - 3;
    assert_eq!(srv::parse_srv(&other), Some(("a".to_string(), 2)));
    other.truncate(at);
    assert_eq!(srv::parse_srv(&other), None);
    let mut two = answer("h", &[(1, 2, "a"), (0, 3, "b")]);
    two.pop();
    assert_eq!(srv::parse_srv(&two), Some(("a".to_string(), 2)));
}

#[test]
fn name_servers_of_a_configuration() {
    let conf = "# c\n nameserver 1.2.3.4 \r\nsearch x\nnameserver\tfe80::1\nnameserverx\nnameserve 9";
    assert_eq!(srv::nameserver_texts(conf), vec!["1.2.3.4", "fe80::1", "x"]);
    assert!(srv::nameserver_texts("").is_empty());
}
