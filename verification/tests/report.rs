use portscan::report::{port_line, port_number, report};

#[test]
fn a_port_number_is_spelled_in_decimal() {
    assert_eq!(port_number(0), "0");
    assert_eq!(port_number(7), "7");
    assert_eq!(port_number(10), "10");
    assert_eq!(port_number(80), "80");
    assert_eq!(port_number(443), "443");
    assert_eq!(port_number(1000), "1000");
    assert_eq!(port_number(8080), "8080");
    assert_eq!(port_number(65535), "65535");
}

#[test]
fn every_port_number_is_spelled_as_the_standard_library_spells_it() {
    for port in 0..=65535u16 {
        assert_eq!(port_number(port), port.to_string());
    }
}

#[test]
fn a_line_names_the_port_and_says_that_it_is_open() {
    assert_eq!(port_line(80), "80 is open!");
    assert_eq!(port_line(443), "443 is open!");
    assert_eq!(port_line(65535), "65535 is open!");
    assert_eq!(port_line(1), format!("{} is open!", 1));
}

#[test]
fn the_report_has_one_line_for_each_port_in_order() {
    let lines = report(&vec![22, 80, 443]);
    assert_eq!(lines, vec!["22 is open!", "80 is open!", "443 is open!"]);
    assert!(report(&Vec::new()).is_empty());
}
