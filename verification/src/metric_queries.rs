//! The Prometheus queries of the benchmark's resource metrics: which
//! container a query selects, and the queries of CPU, memory, network, disk
//! and I/O wait.
use vstd::prelude::*;
use crate::scenarios::append_str;

verus! {

/// The label selector of a client's container: by the first twelve
/// characters of its id when the id is known, else by its compose service.
pub open spec fn filter_text(container_id: Option<Seq<char>>, service: Seq<char>) -> Seq<char> {
    match container_id {
        Some(cid) => "id=~\".*"@ + cid.take(12) + ".*\""@,
        None => "container_label_com_docker_compose_service=\""@ + service + "\""@,
    }
}

/// The label selector of a client's container. A known id must be at least
/// twelve ASCII characters long (a Docker id is 64 hexadecimal digits).
pub fn container_filter(container_id: Option<&str>, service: &str) -> (f: String)
    requires
        container_id matches Some(cid) ==> cid@.len() >= 12 && vstd::string::is_ascii(cid),
    ensures
        f@ == filter_text(
            match container_id {
                Some(cid) => Some(cid@),
                None => None,
            },
            service@,
        ),
{
    proof {
        reveal_strlit("id=~\".*");
        reveal_strlit(".*\"");
        reveal_strlit("container_label_com_docker_compose_service=\"");
        reveal_strlit("\"");
    }
    let mut f = String::new();
    match container_id {
        Some(cid) => {
            append_str(&mut f, "id=~\".*");
            let mut i: usize = 0;
            while i < 12
                invariant
                    0 <= i <= 12,
                    cid@.len() >= 12,
                    f@ == "id=~\".*"@ + cid@.take(i as int),
                decreases 12 - i,
            {
                crate::text::push_char(&mut f, cid.get_char(i));
                assert(cid@.take(i + 1) =~= cid@.take(i as int).push(cid@[i as int]));
                i = i + 1;
            }
            append_str(&mut f, ".*\"");
            assert(f@ =~= "id=~\".*"@ + cid@.take(12) + ".*\""@);
        },
        None => {
            append_str(&mut f, "container_label_com_docker_compose_service=\"");
            append_str(&mut f, service);
            append_str(&mut f, "\"");
            assert(f@ =~= "container_label_com_docker_compose_service=\""@ + service@ + "\""@);
        },
    }
    f
}

/// The queries of one client's metrics over the container selector `f`, in
/// order: CPU use in percent, memory in use, network bytes received and
/// sent, disk bytes read and written (each a rate over two seconds), and
/// the machine's I/O wait in percent.
pub open spec fn queries_text(f: Seq<char>) -> Seq<Seq<char>> {
    seq![
        "rate(container_cpu_usage_seconds_total{"@ + f + ",cpu=\"total\"}[2s]) * 100"@,
        "container_memory_working_set_bytes{"@ + f + "}"@,
        "rate(container_network_receive_bytes_total{"@ + f + "}[2s])"@,
        "rate(container_network_transmit_bytes_total{"@ + f + "}[2s])"@,
        "rate(container_fs_reads_bytes_total{"@ + f + "}[2s])"@,
        "rate(container_fs_writes_bytes_total{"@ + f + "}[2s])"@,
        "avg(rate(node_cpu_seconds_total{mode=\"iowait\"}[2s])) * 100"@,
    ]
}

fn wrapped(head: &str, f: &str, tail: &str) -> (q: String)
    ensures
        q@ == head@ + f@ + tail@,
{
    let mut q = String::new();
    append_str(&mut q, head);
    append_str(&mut q, f);
    append_str(&mut q, tail);
    q
}

/// The seven queries of one client's metrics.
pub fn metric_queries(f: &str) -> (qs: Vec<String>)
    ensures
        qs@.len() == 7,
        forall|k: int| 0 <= k < 7 ==> #[trigger] qs@[k]@ == queries_text(f@)[k],
{
    let mut qs: Vec<String> = Vec::new();
    qs.push(wrapped("rate(container_cpu_usage_seconds_total{", f, ",cpu=\"total\"}[2s]) * 100"));
    qs.push(wrapped("container_memory_working_set_bytes{", f, "}"));
    qs.push(wrapped("rate(container_network_receive_bytes_total{", f, "}[2s])"));
    qs.push(wrapped("rate(container_network_transmit_bytes_total{", f, "}[2s])"));
    qs.push(wrapped("rate(container_fs_reads_bytes_total{", f, "}[2s])"));
    qs.push(wrapped("rate(container_fs_writes_bytes_total{", f, "}[2s])"));
    let mut io = String::new();
    append_str(&mut io, "avg(rate(node_cpu_seconds_total{mode=\"iowait\"}[2s])) * 100");
    qs.push(io);
    proof {
        let t = queries_text(f@);
        assert forall|k: int| 0 <= k < 7 implies #[trigger] qs@[k]@ == t[k] by {}
    }
    qs
}

} // verus!
