use nulloc::topology::{
    cpu_id_from_hash, cpu_id_from_tid, cpu_node_table, cpu_topology, current_cpu, current_numa,
    entry_number, node_number, node_topology, num_numa_nodes, numa_from_cpu_id, number_of_match,
    parse_u16, set_node_affinity, total_memory, NodeDir,
};

fn dir(name: &str, entries: &[&str]) -> NodeDir {
    NodeDir { name: name.to_string(), entries: entries.iter().map(|e| e.to_string()).collect() }
}

#[test]
fn numa() {
    let nodes = node_topology(None, 4);
    let cpu_node = cpu_topology(&nodes);
    let numa = current_numa(&cpu_node, current_cpu(12345, 4));
    println!("current numa {}", numa);
    assert_eq!(numa, 0);
}

#[test]
fn numa_nodes() {
    let nodes = node_topology(None, 4);
    let cpu_node = cpu_topology(&nodes);
    let mut seen = 0;
    for (_cpu, _node) in cpu_node.iter() {
        seen += 1;
    }
    assert_eq!(seen, 4);
}

#[test]
fn decimal_numbers_are_read_digit_by_digit() {
    assert_eq!(parse_u16("0"), Some(0));
    assert_eq!(parse_u16("007"), Some(7));
    assert_eq!(parse_u16("65535"), Some(65535));
    assert_eq!(parse_u16("65536"), None);
    assert_eq!(parse_u16(""), None);
    assert_eq!(parse_u16("12a"), None);
    assert_eq!(parse_u16("+12"), None);
    assert_eq!(parse_u16("\u{0663}"), None);
}

#[test]
fn an_entry_has_a_number_only_where_its_name_matched() {
    assert_eq!(number_of_match(Some(true), Some(Some("12".to_string()))), Some(12));
    assert_eq!(number_of_match(Some(false), Some(Some("12".to_string()))), None);
    assert_eq!(number_of_match(Some(true), Some(None)), None);
    assert_eq!(number_of_match(None, Some(Some("12".to_string()))), None);
    assert_eq!(number_of_match(Some(true), None), None);
    assert_eq!(number_of_match(Some(true), Some(Some("99999".to_string()))), None);
}

#[test]
fn entry_names_go_through_the_regular_expressions() {
    assert_eq!(entry_number("node[0-9]*$", "node3"), Some(3));
    assert_eq!(entry_number("node[0-9]*$", "node12"), Some(12));
    assert_eq!(entry_number("node[0-9]*$", "cpu3"), None);
    assert_eq!(entry_number("node[0-9]*$", "node3x"), None);
    assert_eq!(entry_number("node[0-9]*$", "node"), None);
    assert_eq!(entry_number("cpu[0-9]*$", "cpu17"), Some(17));
    assert_eq!(entry_number("cpu[0-9]*$", "cpulist"), None);
    // No regular expression at all.
    assert_eq!(entry_number("node[0-9", "node3"), None);
}

#[test]
fn the_listing_becomes_nodes_with_processors() {
    let listing = vec![
        dir("node0", &["cpu0", "cpu1", "cpumap", "meminfo"]),
        dir("power", &["cpu9"]),
        dir("node1", &["cpu2", "cpu3", "distance"]),
    ];
    let nodes = node_topology(Some(&listing), 8);
    assert_eq!(nodes.len(), 2);
    assert_eq!(nodes[0].node, 0);
    assert_eq!(nodes[1].node, 1);
    assert_eq!(set_node_affinity(&nodes, 0), Some(vec![0, 1]));
    assert_eq!(set_node_affinity(&nodes, 1), Some(vec![2, 3]));
    assert_eq!(set_node_affinity(&nodes, 2), None);
    let cpu_node = cpu_topology(&nodes);
    assert_eq!(cpu_node.len(), 4);
    assert_eq!(numa_from_cpu_id(&cpu_node, 0), 0);
    assert_eq!(numa_from_cpu_id(&cpu_node, 3), 1);
    assert_eq!(numa_from_cpu_id(&cpu_node, 7), 0);
    let table = cpu_node_table(&cpu_node, 4);
    assert_eq!(table, vec![0, 0, 1, 1]);
    assert_eq!(num_numa_nodes(&table), 2);
}

#[test]
fn without_listing_the_machine_is_one_node() {
    let nodes = node_topology(None, 3);
    assert_eq!(nodes.len(), 1);
    assert_eq!(nodes[0].node, 0);
    assert_eq!(set_node_affinity(&nodes, 0), Some(vec![0, 1, 2]));
    let cpu_node = cpu_topology(&nodes);
    assert_eq!(num_numa_nodes(&cpu_node_table(&cpu_node, 3)), 1);
}

#[test]
fn a_processor_under_two_nodes_counts_for_the_later_one() {
    let listing = vec![dir("node0", &["cpu0", "cpu1"]), dir("node1", &["cpu1"])];
    let nodes = node_topology(Some(&listing), 2);
    let cpu_node = cpu_topology(&nodes);
    assert_eq!(numa_from_cpu_id(&cpu_node, 1), 1);
    assert_eq!(numa_from_cpu_id(&cpu_node, 0), 0);
}

#[test]
fn distinct_nodes_are_counted_once() {
    assert_eq!(num_numa_nodes(&vec![]), 0);
    assert_eq!(num_numa_nodes(&vec![3, 3, 3]), 1);
    assert_eq!(num_numa_nodes(&vec![0, 1, 0, 2, 1]), 3);
}

#[test]
fn threads_are_spread_over_processors() {
    assert_eq!(current_cpu(10, 4), 2);
    assert_eq!(cpu_id_from_hash(29, 8), 5);
    // The hash is that of the thread number's eight bytes.
    let expected = (seahash::hash(&77u64.to_le_bytes()) % 12) as u16;
    assert_eq!(cpu_id_from_tid(77, 12), expected);
    assert_ne!(seahash::hash(&77u64.to_le_bytes()), 77);
}

#[test]
fn memory_is_counted_in_bytes() {
    assert_eq!(total_memory(0), 0);
    assert_eq!(total_memory(3), 3072);
    assert_eq!(total_memory(u64::MAX), usize::MAX);
}

#[test]
fn a_node_directory_is_known_by_its_name() {
    assert_eq!(node_number("node0"), Some(0));
    assert_eq!(node_number("node12"), Some(12));
    assert_eq!(node_number("cpu3"), None);
    assert_eq!(node_number("power"), None);
    // The name matches, but no number is in it.
    assert_eq!(node_number("node"), None);
}
