use ping_log::probe::{latency_of_field, parse_ping_output};
use ping_log::record::LOST_PING;

#[test]
fn parse() {
    assert_eq!(
        parse_ping_output(
            "\
PING 1.1.1.1 (1.1.1.1) 56(84) bytes of data.
64 bytes from 1.1.1.1: icmp_seq=1 ttl=57 time=11.3 ms

--- 1.1.1.1 ping statistics ---
1 packets transmitted, 1 received, 0% packet loss, time 0ms
rtt min/avg/max/mdev = 11.315/11.315/11.315/0.000 ms\n"
        ),
        11_300
    );
    assert_eq!(
        parse_ping_output("\
PING google.com(fra07s29-in-x200e.1e100.net (2a00:1450:4001:802::200e)) 56 data bytes
64 bytes from fra07s29-in-x200e.1e100.net (2a00:1450:4001:802::200e): icmp_seq=1 ttl=118 time=15.9 ms

--- google.com ping statistics ---
1 packets transmitted, 1 received, 0% packet loss, time 0ms
rtt min/avg/max/mdev = 15.877/15.877/15.877/0.000 ms\n"),
        15_900
    );
}

#[test]
fn ping_output_without_reply_is_lost() {
    let timeout = "PING 10.0.0.1 (10.0.0.1) 56(84) bytes of data.\n\n--- 10.0.0.1 ping statistics ---\n1 packets transmitted, 0 received, 100% packet loss, time 0ms\n";
    assert_eq!(parse_ping_output(timeout), LOST_PING);
    assert_eq!(parse_ping_output("no line break"), LOST_PING);
    assert_eq!(parse_ping_output(""), LOST_PING);
}

#[test]
fn reply_field_values() {
    assert_eq!(latency_of_field(Some("0.045")), 45);
    assert_eq!(latency_of_field(Some("12")), 12_000);
    assert_eq!(latency_of_field(Some("1.2.3")), LOST_PING);
    assert_eq!(latency_of_field(None), LOST_PING);
}
