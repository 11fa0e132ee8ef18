use rtbit::metric_queries::{container_filter, metric_queries};

#[test]
fn filters() {
    assert_eq!(
        container_filter(Some("0123456789abcdef0123456789abcdef"), "rtbit"),
        "id=~\".*0123456789ab.*\""
    );
    assert_eq!(container_filter(None, "qbittorrent"), "container_label_com_docker_compose_service=\"qbittorrent\"");
}

#[test]
fn queries() {
    let q = metric_queries("F");
    assert_eq!(q.len(), 7);
    assert_eq!(q[0], "rate(container_cpu_usage_seconds_total{F,cpu=\"total\"}[2s]) * 100");
    assert_eq!(q[1], "container_memory_working_set_bytes{F}");
    assert_eq!(q[2], "rate(container_network_receive_bytes_total{F}[2s])");
    assert_eq!(q[3], "rate(container_network_transmit_bytes_total{F}[2s])");
    assert_eq!(q[4], "rate(container_fs_reads_bytes_total{F}[2s])");
    assert_eq!(q[5], "rate(container_fs_writes_bytes_total{F}[2s])");
    assert_eq!(q[6], "avg(rate(node_cpu_seconds_total{mode=\"iowait\"}[2s])) * 100");
}
