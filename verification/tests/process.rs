use dsh_desktop::process::{
    can_terminate, kill_order, listener_pids, port_listener_pid, port_rows, table_listener_pids, tree_order,
    wait_millis,
};

const NETSTAT: &str = "\n活动连接\n\n  协议  本地地址          外部地址        状态           PID\n  TCP    0.0.0.0:135            0.0.0.0:0              LISTENING       1200\n  TCP    127.0.0.1:3080         0.0.0.0:0              LISTENING       8888\n  TCP    127.0.0.1:3080         127.0.0.1:50000        ESTABLISHED     8888\n  TCP    127.0.0.1:13080        0.0.0.0:0              LISTENING       77\n  TCP    127.0.0.1:3080         127.0.0.1:50001        TIME_WAIT       0\n  TCP    [::1]:3080             [::]:0                 LISTENING       9999\n  UDP    127.0.0.1:3080         *:*                                    5\n";

#[test]
fn the_tree_is_listed_closest_first() {
    let table = vec![(10, 1), (20, 10), (30, 10), (40, 20), (50, 2), (10, 40)];
    assert_eq!(tree_order(&table, 10, 7), vec![10, 20, 30, 40]);
    assert_eq!(tree_order(&table, 50, 7), vec![50]);
}

#[test]
fn a_kill_goes_deepest_first_and_spares_the_shell() {
    let table = vec![(20, 10), (7, 10), (30, 20), (40, 7)];
    assert_eq!(kill_order(&table, 10, 7), vec![30, 20, 10]);
    assert_eq!(kill_order(&table, 7, 7), Vec::<u32>::new());
    assert_eq!(kill_order(&table, 0, 7), Vec::<u32>::new());
    assert_eq!(kill_order(&table, 4, 7), Vec::<u32>::new());
    assert_eq!(kill_order(&vec![(4, 10), (3, 10), (8, 10)], 10, 7), vec![8, 10]);
}

#[test]
fn a_loop_in_the_table_does_not_trap_the_sweep() {
    let table = vec![(10, 20), (20, 10)];
    assert_eq!(kill_order(&table, 10, 1), vec![20, 10]);
}

#[test]
fn the_system_is_never_terminated() {
    assert!(!can_terminate(0, 9) && !can_terminate(4, 9) && !can_terminate(9, 9));
    assert!(can_terminate(5, 9));
}

#[test]
fn waits_are_counted_in_milliseconds() {
    assert_eq!(wait_millis(1500), 1500);
    assert_eq!(wait_millis(u32::MAX as u128 + 5), u32::MAX);
}

#[test]
fn listeners_are_read_from_netstat() {
    assert_eq!(port_rows(NETSTAT, 3080), vec![8888, 8888, 9999]);
    assert_eq!(port_listener_pid(NETSTAT, 3080), Some(8888));
    assert_eq!(listener_pids(NETSTAT, 3080), vec![8888, 9999]);
    assert_eq!(port_listener_pid(NETSTAT, 81), None);
    assert_eq!(port_listener_pid("", 3080), None);
}

#[test]
fn an_unreadable_number_is_passed_over() {
    let text = "TCP 1.2.3.4:3080 x y abc\nTCP 1.2.3.4:3080 x y 12\n";
    assert_eq!(port_listener_pid(text, 3080), Some(12));
    assert_eq!(port_rows("TCP 1.2.3.4:3080 x 12", 3080), Vec::<u32>::new());
}

fn row(state: u32, port: u16, pid: u32) -> Vec<u8> {
    let mut out = Vec::new();
    for n in [state, 0x0100007f, port.to_be() as u32, 0, 0, pid] {
        out.extend_from_slice(&n.to_le_bytes());
    }
    out
}

#[test]
fn listeners_are_read_from_the_native_table() {
    let mut buf = 5u32.to_le_bytes().to_vec();
    buf.extend(row(2, 3080, 100));
    buf.extend(row(2, 3081, 200));
    buf.extend(row(5, 3080, 300));
    buf.extend(row(2, 3080, 100));
    buf.extend(row(2, 3080, 400));
    assert_eq!(table_listener_pids(&buf, 3080), vec![100, 400]);
    buf.truncate(4 + 24 * 4 + 10);
    assert_eq!(table_listener_pids(&buf, 3080), vec![100]);
    assert_eq!(table_listener_pids(&[], 3080), Vec::<u32>::new());
    assert_eq!(table_listener_pids(&[9, 0, 0, 0], 3080), Vec::<u32>::new());
}
