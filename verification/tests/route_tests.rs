use rucimp::route::{command_words, down_auto_route, run_tcp_route, CommandRun, DEFAULT_LOCAL_NET};

#[test]
fn tcp_route_lines_for_tcp_only() {
    let r = run_tcp_route(12345, false);
    assert!(r.stop_on_error);
    assert_eq!(r.lines.len(), 16);
    assert_eq!(r.lines[0], "ip rule add fwmark 1 table 100");
    assert_eq!(
        r.lines[7],
        "iptables -t mangle -A rucimp -p tcp -j TPROXY --on-port 12345 --tproxy-mark 1"
    );
    assert_eq!(r.lines[15], "iptables -t mangle -A OUTPUT -j rucimp_self");
}

#[test]
fn tcp_route_lines_with_udp() {
    let r = run_tcp_route(1080, true);
    assert_eq!(r.lines.len(), 20);
    assert_eq!(r.lines[7], "iptables -t mangle -A rucimp -d 192.168.0.0/16 -p udp -j RETURN");
    assert_eq!(
        r.lines[9],
        "iptables -t mangle -A rucimp -p udp -j TPROXY --on-port 1080 --tproxy-mark 1"
    );
    assert_eq!(r.lines[18], "iptables -t mangle -A rucimp_self -p udp -j MARK --set-mark 1");
}

#[test]
fn down_route_lines() {
    let r = down_auto_route(1080);
    assert!(!r.stop_on_error);
    assert_eq!(r.lines.len(), 22);
    assert_eq!(
        r.lines[7],
        "iptables -t mangle -D rucimp -p udp -j TPROXY --on-port 1080 --tproxy-mark 1"
    );
    assert_eq!(r.lines[21], "iptables -t mangle -X rucimp_self");
}

#[test]
fn stopping_run_ends_at_first_failure() {
    let mut r = run_tcp_route(1, false);
    assert_eq!(r.current().unwrap(), "ip rule add fwmark 1 table 100");
    r.report(true);
    r.report(false);
    assert!(r.current().is_none());
    assert_eq!(r.outcome(), Err(1));
}

#[test]
fn non_stopping_run_runs_everything() {
    let mut r = down_auto_route(1);
    let mut ran = 0;
    while r.current().is_some() {
        r.report(ran % 2 == 0);
        ran += 1;
    }
    assert_eq!(ran, 22);
    assert_eq!(r.outcome(), Ok(()));
    assert_eq!(r.failed, Some(1));
}

#[test]
fn empty_run_succeeds() {
    let r = CommandRun::new(vec![], true);
    assert!(r.current().is_none());
    assert_eq!(r.outcome(), Ok(()));
}

#[test]
fn words_of_command_line() {
    let w = command_words("ip rule add fwmark 1 table 100");
    assert_eq!(w, vec!["ip", "rule", "add", "fwmark", "1", "table", "100"]);
    assert_eq!(DEFAULT_LOCAL_NET, "192.168.0.0/16");
}

#[test]
fn teardown_undoes_setup() {
    let down = down_auto_route(1080).lines;
    for also_udp in [false, true] {
        for l in run_tcp_route(1080, also_udp).lines {
            if let Some(chain) = l.strip_prefix("iptables -t mangle -N ") {
                let f = down.iter().position(|d| *d == format!("iptables -t mangle -F {chain}")).unwrap();
                assert_eq!(down[f + 1], format!("iptables -t mangle -X {chain}"));
            } else {
                let undo = l.replacen(" -A ", " -D ", 1).replacen(" add ", " del ", 1);
                let at = down.iter().position(|d| *d == undo).unwrap();
                assert!(at < down.len() - 4);
            }
        }
    }
}
