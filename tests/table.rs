use lpm_table::Table;
fn create_table() -> Table {
    Table::new()
}

#[test]
fn ip_to_bit_vec() {
    let test_cases = vec![
        (
            "192.168.0.1",
            vec![
                1, 1, 0, 0, 0, 0, 0, 0, 1, 0, 1, 0, 1, 0, 0, 0, 0, 0, 0, 0, 0, 0, 0, 0, 0, 0,
                0, 0, 0, 0, 0, 1,
            ],
        ),
        ("0.0.0.0", vec![0; 32]),
        ("255.255.255.255", vec![1; 32]),
        (
            "128.0.0.0",
            vec![
                1, 0, 0, 0, 0, 0, 0, 0, 0, 0, 0, 0, 0, 0, 0, 0, 0, 0, 0, 0, 0, 0, 0, 0, 0, 0,
                0, 0, 0, 0, 0, 0,
            ],
        ),
        (
            "0.0.0.1",
            vec![
                0, 0, 0, 0, 0, 0, 0, 0, 0, 0, 0, 0, 0, 0, 0, 0, 0, 0, 0, 0, 0, 0, 0, 0, 0, 0,
                0, 0, 0, 0, 0, 1,
            ],
        ),
        (
            "10.0.0.0",
            vec![
                0, 0, 0, 0, 1, 0, 1, 0, 0, 0, 0, 0, 0, 0, 0, 0, 0, 0, 0, 0, 0, 0, 0, 0, 0, 0,
                0, 0, 0, 0, 0, 0,
            ],
        ),
        (
            "127.0.0.1",
            vec![
                0, 1, 1, 1, 1, 1, 1, 1, 0, 0, 0, 0, 0, 0, 0, 0, 0, 0, 0, 0, 0, 0, 0, 0, 0, 0,
                0, 0, 0, 0, 0, 1,
            ],
        ),
        (
            "1.2.3.4",
            vec![
                0, 0, 0, 0, 0, 0, 0, 1, 0, 0, 0, 0, 0, 0, 1, 0, 0, 0, 0, 0, 0, 0, 1, 1, 0, 0,
                0, 0, 0, 1, 0, 0,
            ],
        ),
    ];

    for (ip, expected) in test_cases {
        let res = Table::ip_to_bit_vec(ip.to_owned()).unwrap();
        assert_eq!(res.len(), 32);
        assert_eq!(res, expected);
    }
}

#[test]
fn prefix_length() {
    let test_cases = vec![
        (
            "192.168.1.1",
            "192.168.1.1",
            32,
            "11000000101010000000000100000001",
        ),
        (
            "192.168.0.0",
            "192.168.0.255",
            24,
            "110000001010100000000000",
        ),
        ("10.0.0.0", "10.0.0.255", 24, "000010100000000000000000"),
        (
            "172.16.0.0",
            "172.16.0.127",
            25,
            "1010110000010000000000000",
        ),
        (
            "192.168.1.0",
            "192.168.1.127",
            25,
            "1100000010101000000000010",
        ),
        ("10.1.0.0", "10.1.255.255", 16, "0000101000000001"),
        (
            "172.20.10.0",
            "172.20.10.31",
            27,
            "101011000001010000001010000",
        ),
        (
            "192.168.100.0",
            "192.168.100.63",
            26,
            "11000000101010000110010000",
        ),
        ("10.10.0.0", "10.10.31.255", 19, "0000101000001010000"),
        ("172.31.0.0", "172.31.15.255", 20, "10101100000111110000"),
        (
            "192.168.50.0",
            "192.168.50.15",
            28,
            "1100000010101000001100100000",
        ),
        (
            "192.168.1.1",
            "192.168.1.1",
            32,
            "11000000101010000000000100000001",
        ),
        (
            "192.168.2.0",
            "192.168.2.1",
            31,
            "1100000010101000000000100000000",
        ),
        (
            "192.168.3.0",
            "192.168.3.3",
            30,
            "110000001010100000000011000000",
        ),
        (
            "192.168.255.0",
            "192.168.255.255",
            24,
            "110000001010100011111111",
        ),
        (
            "192.168.4.0",
            "192.168.4.7",
            29,
            "11000000101010000000010000000",
        ),
        (
            "192.168.5.0",
            "192.168.5.15",
            28,
            "1100000010101000000001010000",
        ),
        ("172.20.0.0", "172.20.255.255", 16, "1010110000010100"),
        ("10.20.0.0", "10.20.1.255", 23, "00001010000101000000000"),
        ("172.30.0.0", "172.30.3.255", 22, "1010110000011110000000"),
        ("10.30.0.0", "10.30.7.255", 21, "000010100001111000000"),
        ("0.0.0.0", "255.255.255.255", 0, ""),
    ];

    let table = create_table();

    for case in test_cases {
        let prefix = table.prefix(case.0.to_owned(), case.1.to_owned()).unwrap();
        assert_eq!(prefix.len(), case.2);

        let prefix_str = prefix
            .into_iter()
            .map(|p| p.to_string())
            .collect::<Vec<String>>()
            .concat();
        assert_eq!(prefix_str, case.3)
    }
}

#[test]
fn test_default_route() {
    let mut table = create_table();
    table
        .insert_range(
            "0.0.0.0".to_owned(),
            "255.255.255.255".to_owned(),
            "0.0.0.0".to_owned(),
        )
        .unwrap();
    assert_eq!(
        table
            .lookup("120.0.1.1".to_owned())
            .unwrap()
            .unwrap()
            .to_string(),
        "0.0.0.0"
    );
    assert_eq!(
        table
            .lookup("10.0.0.1".to_owned())
            .unwrap()
            .unwrap()
            .to_string(),
        "0.0.0.0"
    );
}

#[test]
fn test_specific_prefixes() {
    let mut table = create_table();
    table
        .insert_range(
            "10.0.1.0".to_owned(),
            "10.0.1.255".to_owned(),
            "192.168.0.1".to_owned(),
        )
        .unwrap();
    table
        .insert_range(
            "10.0.2.0".to_owned(),
            "10.0.2.255".to_owned(),
            "192.168.0.2".to_owned(),
        )
        .unwrap();
    table
        .insert_range(
            "10.0.3.0".to_owned(),
            "10.0.3.255".to_owned(),
            "192.168.0.3".to_owned(),
        )
        .unwrap();
    assert_eq!(
        table
            .lookup("10.0.1.1".to_owned())
            .unwrap()
            .unwrap()
            .to_string(),
        "192.168.0.1"
    );
    assert_eq!(
        table
            .lookup("10.0.2.1".to_owned())
            .unwrap()
            .unwrap()
            .to_string(),
        "192.168.0.2"
    );
    assert_eq!(
        table
            .lookup("10.0.3.1".to_owned())
            .unwrap()
            .unwrap()
            .to_string(),
        "192.168.0.3"
    );
}

#[test]
fn test_overlapping_prefixes() {
    let mut table = create_table();
    table
        .insert_range(
            "0.0.0.0".to_owned(),
            "127.255.255.255".to_owned(),
            "1.1.1.1".to_owned(),
        )
        .unwrap();
    table
        .insert_range(
            "128.0.0.0".to_owned(),
            "255.255.255.255".to_owned(),
            "2.2.2.2".to_owned(),
        )
        .unwrap();
    assert_eq!(
        table
            .lookup("10.0.0.1".to_owned())
            .unwrap()
            .unwrap()
            .to_string(),
        "1.1.1.1"
    );
    assert_eq!(
        table
            .lookup("192.168.1.1".to_owned())
            .unwrap()
            .unwrap()
            .to_string(),
        "2.2.2.2"
    );
}

#[test]
fn test_nested_prefixes() {
    let mut table = create_table();
    table
        .insert_range(
            "10.0.0.0".to_owned(),
            "10.1.255.255".to_owned(),
            "192.168.0.0".to_owned(),
        )
        .unwrap();
    table
        .insert_range(
            "10.0.1.0".to_owned(),
            "10.0.1.255".to_owned(),
            "192.168.0.1".to_owned(),
        )
        .unwrap();
    assert_eq!(
        table
            .lookup("10.0.0.1".to_owned())
            .unwrap()
            .unwrap()
            .to_string(),
        "192.168.0.0"
    );
    assert_eq!(
        table
            .lookup("10.0.1.1".to_owned())
            .unwrap()
            .unwrap()
            .to_string(),
        "192.168.0.1"
    );
}

#[test]
fn test_single_ip() {
    let mut table = create_table();
    table
        .insert_range(
            "192.168.1.1".to_owned(),
            "192.168.1.1".to_owned(),
            "192.168.1.1".to_owned(),
        )
        .unwrap();
    assert_eq!(
        table
            .lookup("192.168.1.1".to_owned())
            .unwrap()
            .unwrap()
            .to_string(),
        "192.168.1.1"
    );
    assert_eq!(table.lookup("192.168.1.2".to_owned()).unwrap(), None);
}

#[test]
fn test_no_matching_prefix() {
    let table = create_table();
    assert_eq!(table.lookup("192.168.1.1".to_owned()).unwrap(), None);
}

#[test]
fn test_insertion_order() {
    let mut table1 = create_table();
    table1
        .insert_range(
            "10.0.0.0".to_owned(),
            "10.1.255.255".to_owned(),
            "192.168.0.0".to_owned(),
        )
        .unwrap();
    table1
        .insert_range(
            "10.0.1.0".to_owned(),
            "10.0.1.255".to_owned(),
            "192.168.0.1".to_owned(),
        )
        .unwrap();

    let mut table2 = create_table();
    table2
        .insert_range(
            "10.0.1.0".to_owned(),
            "10.0.1.255".to_owned(),
            "192.168.0.1".to_owned(),
        )
        .unwrap();
    table2
        .insert_range(
            "10.0.0.0".to_owned(),
            "10.1.255.255".to_owned(),
            "192.168.0.0".to_owned(),
        )
        .unwrap();

    assert_eq!(
        table1
            .lookup("10.0.1.1".to_owned())
            .unwrap()
            .unwrap()
            .to_string(),
        "192.168.0.1"
    );
    assert_eq!(
        table2
            .lookup("10.0.1.1".to_owned())
            .unwrap()
            .unwrap()
            .to_string(),
        "192.168.0.1"
    );
    assert_eq!(
        table1
            .lookup("10.0.0.1".to_owned())
            .unwrap()
            .unwrap()
            .to_string(),
        "192.168.0.0"
    );
    assert_eq!(
        table2
            .lookup("10.0.0.1".to_owned())
            .unwrap()
            .unwrap()
            .to_string(),
        "192.168.0.0"
    );
}
