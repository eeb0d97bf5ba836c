//! The machine as the heaps see it: which processors belong to which node.
//!
//! The listing of the system's node directory is read by the caller; what
//! the names in it mean is decided here.

use std::collections::HashMap;
use vstd::prelude::*;

verus! {

/// The processors of one node, kept in a `smallvec::SmallVec` that holds up
/// to 64 of them inline.  Verus does not look inside: what the vector holds
/// is `cpu_items`, and the four functions below are believed to do to it what
/// the vector's own methods do.
#[verifier::external_body]
pub struct NodeCpus {
    inner: smallvec::SmallVec<[u16; 64]>,
}

/// The processor numbers that the vector holds, in order.
pub uninterp spec fn cpu_items(v: NodeCpus) -> Seq<u16>;

/// Calls `SmallVec::new`: the new vector holds nothing.
#[verifier::external_body]
fn cpus_new() -> (r: NodeCpus)
    ensures
        cpu_items(r) == Seq::<u16>::empty(),
{
    NodeCpus { inner: smallvec::SmallVec::new() }
}

/// Calls `SmallVec::push`: the value is appended.  The call panics with
/// "capacity overflow" where the next power of two above the length, in items
/// of two bytes, passes the largest size of an allocation; below an eighth of
/// the largest word it does not.
#[verifier::external_body]
fn cpus_push(v: &mut NodeCpus, cpu: u16)
    requires
        cpu_items(*old(v)).len() < usize::MAX / 8,
    ensures
        cpu_items(*final(v)) == cpu_items(*old(v)).push(cpu),
{
    v.inner.push(cpu)
}

/// Calls `SmallVec::len`: the number of values held.
#[verifier::external_body]
fn cpus_len(v: &NodeCpus) -> (r: usize)
    ensures
        r == cpu_items(*v).len(),
{
    v.inner.len()
}

/// Indexes the `SmallVec`, which derefs to the slice of its values: the
/// value at `index`.
#[verifier::external_body]
fn cpus_get(v: &NodeCpus, index: usize) -> (r: u16)
    requires
        index < cpu_items(*v).len(),
    ensures
        r == cpu_items(*v)[index as int],
{
    v.inner[index]
}

/// Whether the regular expression `pattern` matches somewhere in `text`;
/// nothing where `pattern` is no regular expression.
pub uninterp spec fn regex_match_of(pattern: Seq<char>, text: Seq<char>) -> Option<bool>;

/// The text of the first match of the regular expression `pattern` in
/// `text`, if there is a match; nothing at all where `pattern` is no regular
/// expression.
pub uninterp spec fn regex_capture_of(pattern: Seq<char>, text: Seq<char>) -> Option<
    Option<Seq<char>>,
>;

/// What a capture holds, as plain text.
pub open spec fn capture_view(capture: Option<Option<String>>) -> Option<Option<Seq<char>>> {
    match capture {
        Some(Some(text)) => Some(Some(text@)),
        Some(None) => Some(None),
        None => None,
    }
}

/// Eight bytes hashed by `seahash` under its fixed seeds.
pub uninterp spec fn sea_hash_of(word: u64) -> u64;

/// Compiles `pattern` with `regex::Regex::new` and asks `Regex::is_match`
/// whether it matches somewhere in `text`.  The answer depends on the two
/// texts alone.
#[verifier::external_body]
fn regex_is_match(pattern: &str, text: &str) -> (r: Option<bool>)
    ensures
        r == regex_match_of(pattern@, text@),
{
    match regex::Regex::new(pattern) {
        Ok(re) => Some(re.is_match(text)),
        Err(_) => None,
    }
}

/// Compiles `pattern` with `regex::Regex::new` and takes the whole text of
/// the first item of `Regex::captures_iter` on `text`.  The answer depends on
/// the two texts alone.
#[verifier::external_body]
fn regex_first_capture(pattern: &str, text: &str) -> (r: Option<Option<String>>)
    ensures
        capture_view(r) == regex_capture_of(pattern@, text@),
{
    match regex::Regex::new(pattern) {
        Ok(re) => Some(re.captures_iter(text).next().map(|c| c[0].to_string())),
        Err(_) => None,
    }
}

/// Hashes the eight bytes of `word`, lowest first, with `seahash::hash`,
/// whose seeds are fixed.
#[verifier::external_body]
fn sea_hash(word: u64) -> (r: u64)
    ensures
        r == sea_hash_of(word),
{
    seahash::hash(&word.to_le_bytes())
}

/// The value of the decimal digit `c`, if it is one.
pub open spec fn digit_value(c: char) -> Option<nat> {
    if '0' <= c && c <= '9' {
        Some((c as nat - '0' as nat) as nat)
    } else {
        None
    }
}

/// The number that the decimal digits `s` write, as long as it stays within
/// `limit`; nothing where `s` holds anything but decimal digits, or nothing
/// at all.
pub open spec fn decimal_prefix(s: Seq<char>, limit: nat) -> Option<nat>
    decreases s.len(),
{
    if s.len() == 0 {
        Some(0)
    } else {
        match (decimal_prefix(s.drop_last(), limit), digit_value(s.last())) {
            (Some(high), Some(low)) => if high * 10 + low <= limit {
                Some(high * 10 + low)
            } else {
                None
            },
            _ => None,
        }
    }
}

/// The 16-bit number that the text `s` writes in decimal digits.
pub open spec fn spec_parse_u16(s: Seq<char>) -> Option<u16> {
    if s.len() == 0 {
        None
    } else {
        match decimal_prefix(s, u16::MAX as nat) {
            Some(v) => Some(v as u16),
            None => None,
        }
    }
}

/// The number of a directory entry: the first run of digits in its name,
/// where the name matched the pattern for such entries and the run is a
/// 16-bit number.
pub open spec fn spec_number_of_match(matched: Option<bool>, capture: Option<Option<Seq<char>>>) -> Option<
    u16,
> {
    match (matched, capture) {
        (Some(true), Some(Some(digits))) => spec_parse_u16(digits),
        _ => None,
    }
}

/// The number of the entry `name` under `pattern`.
pub open spec fn spec_entry_number(pattern: Seq<char>, name: Seq<char>) -> Option<u16> {
    spec_number_of_match(regex_match_of(pattern, name), regex_capture_of("\\d+"@, name))
}

/// The numbers of those of `names` that are entries under `pattern`, in
/// order.
pub open spec fn spec_entry_numbers(pattern: Seq<char>, names: Seq<String>) -> Seq<u16>
    decreases names.len(),
{
    if names.len() == 0 {
        Seq::empty()
    } else {
        let before = spec_entry_numbers(pattern, names.drop_last());
        match spec_entry_number(pattern, names.last()@) {
            Some(n) => before.push(n),
            None => before,
        }
    }
}

/// Reads a 16-bit number written in decimal digits.
pub fn parse_u16(text: &str) -> (r: Option<u16>)
    ensures
        r == spec_parse_u16(text@),
{
    let len: usize = text.unicode_len();
    if len == 0 {
        return None;
    }
    let mut value: u32 = 0;
    let mut i: usize = 0;
    while i < len
        invariant
            0 <= i <= len,
            len == text@.len(),
            value <= u16::MAX,
            decimal_prefix(text@.take(i as int), u16::MAX as nat) == Some(value as nat),
        decreases len - i,
    {
        let c: char = text.get_char(i);
        proof {
            assert(text@.take(i as int + 1).drop_last() =~= text@.take(i as int));
        }
        if c < '0' || c > '9' {
            proof {
                lemma_decimal_prefix_fails(text@, i as int + 1, u16::MAX as nat);
            }
            return None;
        }
        let digit: u32 = c as u32 - '0' as u32;
        let next: u32 = value * 10 + digit;
        if next > 65535 {
            proof {
                lemma_decimal_prefix_fails(text@, i as int + 1, u16::MAX as nat);
            }
            return None;
        }
        value = next;
        i = i + 1;
    }
    proof {
        assert(text@.take(len as int) =~= text@);
    }
    Some(value as u16)
}

/// Once a prefix of the digits fails to be a number within the limit, so does
/// the whole.
proof fn lemma_decimal_prefix_fails(s: Seq<char>, i: int, limit: nat)
    requires
        0 <= i <= s.len(),
        decimal_prefix(s.take(i), limit) is None,
    ensures
        decimal_prefix(s, limit) is None,
    decreases s.len() - i,
{
    if i < s.len() {
        assert(s.take(i + 1).drop_last() =~= s.take(i));
        lemma_decimal_prefix_fails(s, i + 1, limit);
    } else {
        assert(s.take(i) =~= s);
    }
}

/// The number of a directory entry, from what the two regular expressions
/// said of its name.
pub fn number_of_match(matched: Option<bool>, capture: Option<Option<String>>) -> (r: Option<u16>)
    ensures
        r == spec_number_of_match(matched, capture_view(capture)),
{
    match (matched, capture) {
        (Some(true), Some(Some(digits))) => parse_u16(digits.as_str()),
        _ => None,
    }
}

/// The number of the entry `name` under `pattern`: of `node3` under the
/// pattern for nodes, 3.
pub fn entry_number(pattern: &str, name: &str) -> (r: Option<u16>)
    ensures
        r == spec_entry_number(pattern@, name@),
{
    let matched = regex_is_match(pattern, name);
    let capture = regex_first_capture("\\d+", name);
    number_of_match(matched, capture)
}

/// The number of the node whose directory is called `name`, if that is the
/// name of a node's directory.
pub fn node_number(name: &str) -> (r: Option<u16>)
    ensures
        r == spec_entry_number("node[0-9]*$"@, name@),
{
    entry_number("node[0-9]*$", name)
}

/// One directory of the listing: its name and the names of its entries.
pub struct NodeDir {
    pub name: String,
    pub entries: Vec<String>,
}

/// One node with its processors.
pub struct NodeEntry {
    pub node: u16,
    pub cpus: NodeCpus,
}

/// The nodes that the listing `dirs` shows, in its order: each directory
/// whose name is that of a node, with the processors that its entries name.
pub open spec fn spec_node_topology(dirs: Seq<NodeDir>) -> Seq<(u16, Seq<u16>)>
    decreases dirs.len(),
{
    if dirs.len() == 0 {
        Seq::empty()
    } else {
        let before = spec_node_topology(dirs.drop_last());
        match spec_entry_number("node[0-9]*$"@, dirs.last().name@) {
            Some(n) => before.push((n, spec_entry_numbers("cpu[0-9]*$"@, dirs.last().entries@))),
            None => before,
        }
    }
}

/// The nodes with their processors, as pairs.
pub open spec fn topology_view(nodes: Seq<NodeEntry>) -> Seq<(u16, Seq<u16>)> {
    nodes.map_values(|e: NodeEntry| (e.node, cpu_items(e.cpus)))
}

/// The topology of a machine of which nothing is known but the number of its
/// processors: one node, number 0, with all of them.
pub open spec fn spec_flat_topology(num_cpus: u16) -> Seq<(u16, Seq<u16>)> {
    seq![(0u16, Seq::new(num_cpus as nat, |i: int| i as u16))]
}

/// The processors that the entries `names` of a node's directory name.
pub fn node_cpus(names: &Vec<String>) -> (r: NodeCpus)
    requires
        names@.len() < usize::MAX / 8,
    ensures
        cpu_items(r) == spec_entry_numbers("cpu[0-9]*$"@, names@),
{
    let mut cpus = cpus_new();
    let mut i: usize = 0;
    while i < names.len()
        invariant
            0 <= i <= names@.len(),
            names@.len() < usize::MAX / 8,
            cpu_items(cpus) == spec_entry_numbers("cpu[0-9]*$"@, names@.take(i as int)),
            cpu_items(cpus).len() <= i,
        decreases names@.len() - i,
    {
        proof {
            assert(names@.take(i as int + 1).drop_last() =~= names@.take(i as int));
        }
        match entry_number("cpu[0-9]*$", names[i].as_str()) {
            Some(cpu) => {
                cpus_push(&mut cpus, cpu);
            },
            None => {},
        }
        i = i + 1;
    }
    proof {
        assert(names@.take(names@.len() as int) =~= names@);
    }
    cpus
}

/// The nodes that the listing of the system's node directory shows.  Where
/// there is no listing, the machine counts as one node with `num_cpus`
/// processors.
pub fn node_topology(listing: Option<&Vec<NodeDir>>, num_cpus: u16) -> (r: Vec<NodeEntry>)
    requires
        listing matches Some(dirs) ==> forall|i: int|
            0 <= i < dirs@.len() ==> (#[trigger] dirs@[i]).entries@.len() < usize::MAX / 8,
    ensures
        topology_view(r@) == (match listing {
            Some(dirs) => spec_node_topology(dirs@),
            None => spec_flat_topology(num_cpus),
        }),
{
    let mut nodes: Vec<NodeEntry> = Vec::new();
    match listing {
        Some(dirs) => {
            let mut i: usize = 0;
            while i < dirs.len()
                invariant
                    0 <= i <= dirs@.len(),
                    forall|k: int|
                        0 <= k < dirs@.len() ==> (#[trigger] dirs@[k]).entries@.len() < usize::MAX / 8,
                    topology_view(nodes@) == spec_node_topology(dirs@.take(i as int)),
                decreases dirs@.len() - i,
            {
                proof {
                    assert(dirs@.take(i as int + 1).drop_last() =~= dirs@.take(i as int));
                }
                let ghost before = nodes@;
                match node_number(dirs[i].name.as_str()) {
                    Some(node) => {
                        let cpus = node_cpus(&dirs[i].entries);
                        nodes.push(NodeEntry { node, cpus });
                        proof {
                            assert(topology_view(nodes@) =~= topology_view(before).push(
                                (node, cpu_items(cpus)),
                            ));
                        }
                    },
                    None => {},
                }
                i = i + 1;
            }
            proof {
                assert(dirs@.take(dirs@.len() as int) =~= dirs@);
            }
        },
        None => {
            let mut cpus = cpus_new();
            let mut cpu: u16 = 0;
            while cpu < num_cpus
                invariant
                    0 <= cpu <= num_cpus,
                    cpu_items(cpus) == Seq::new(cpu as nat, |i: int| i as u16),
                decreases num_cpus - cpu,
            {
                cpus_push(&mut cpus, cpu);
                proof {
                    assert(cpu_items(cpus) =~= Seq::new((cpu + 1) as nat, |i: int| i as u16));
                }
                cpu = cpu + 1;
            }
            nodes.push(NodeEntry { node: 0, cpus });
            proof {
                assert(topology_view(nodes@) =~= spec_flat_topology(num_cpus));
            }
        },
    }
    nodes
}

/// The map from processors to nodes that entering the pairs of `nodes` in
/// order makes of `m`: a processor that stands under two nodes counts for the
/// later one.
pub open spec fn spec_cpu_map(nodes: Seq<(u16, Seq<u16>)>) -> Map<u16, u16>
    decreases nodes.len(),
{
    if nodes.len() == 0 {
        Map::empty()
    } else {
        spec_enter_cpus(spec_cpu_map(nodes.drop_last()), nodes.last().0, nodes.last().1)
    }
}

/// `m` with every processor of `cpus` mapped to `node`.
pub open spec fn spec_enter_cpus(m: Map<u16, u16>, node: u16, cpus: Seq<u16>) -> Map<u16, u16>
    decreases cpus.len(),
{
    if cpus.len() == 0 {
        m
    } else {
        spec_enter_cpus(m, node, cpus.drop_last()).insert(cpus.last(), node)
    }
}

/// The node of every processor of `nodes`.
pub fn cpu_topology(nodes: &Vec<NodeEntry>) -> (r: HashMap<u16, u16>)
    ensures
        r@ == spec_cpu_map(topology_view(nodes@)),
{
    broadcast use vstd::std_specs::hash::group_hash_axioms;

    let mut cpus: HashMap<u16, u16> = HashMap::new();
    let mut i: usize = 0;
    let ghost view = topology_view(nodes@);
    while i < nodes.len()
        invariant
            0 <= i <= nodes@.len(),
            view == topology_view(nodes@),
            cpus@ == spec_cpu_map(view.take(i as int)),
        decreases nodes@.len() - i,
    {
        let node: u16 = nodes[i].node;
        let count: usize = cpus_len(&nodes[i].cpus);
        let ghost items = cpu_items(nodes@[i as int].cpus);
        let ghost start = cpus@;
        let mut j: usize = 0;
        proof {
            assert(view.take(i as int + 1).drop_last() =~= view.take(i as int));
            assert(view[i as int] == (node, items));
        }
        while j < count
            invariant
                0 <= j <= count,
                i < nodes@.len(),
                count == items.len(),
                items == cpu_items(nodes@[i as int].cpus),
                cpus@ == spec_enter_cpus(start, node, items.take(j as int)),
            decreases count - j,
        {
            let cpu: u16 = cpus_get(&nodes[i].cpus, j);
            proof {
                assert(items.take(j as int + 1).drop_last() =~= items.take(j as int));
            }
            cpus.insert(cpu, node);
            j = j + 1;
        }
        proof {
            assert(items.take(count as int) =~= items);
        }
        i = i + 1;
    }
    proof {
        assert(view.take(nodes@.len() as int) =~= view);
    }
    cpus
}

/// The node of processor `cpu_id`, and node 0 for a processor that the map
/// does not know.
pub fn numa_from_cpu_id(cpu_node: &HashMap<u16, u16>, cpu_id: u16) -> (r: u16)
    ensures
        r == (if cpu_node@.contains_key(cpu_id) {
            cpu_node@[cpu_id]
        } else {
            0
        }),
{
    broadcast use vstd::std_specs::hash::group_hash_axioms;

    match cpu_node.get(&cpu_id) {
        Some(node) => *node,
        None => 0,
    }
}

/// The node on which a thread runs that is on processor `cpu`.
pub fn current_numa(cpu_node: &HashMap<u16, u16>, cpu: u16) -> (r: u16)
    ensures
        r == (if cpu_node@.contains_key(cpu) {
            cpu_node@[cpu]
        } else {
            0
        }),
{
    numa_from_cpu_id(cpu_node, cpu)
}

/// The processor that stands for a thread where the system does not tell on
/// which one it runs: the thread's number modulo the number of processors.
pub fn current_cpu(thread_id: usize, num_cpu: u16) -> (r: u16)
    requires
        num_cpu > 0,
    ensures
        r == thread_id % (num_cpu as usize),
        r < num_cpu,
{
    (thread_id % (num_cpu as usize)) as u16
}

/// The processor that `hash`, the hash of a thread's number, picks among
/// `num_cpu`.
pub fn cpu_id_from_hash(hash: u64, num_cpu: u16) -> (r: u16)
    requires
        num_cpu > 0,
    ensures
        r == hash % (num_cpu as u64),
        r < num_cpu,
{
    (hash % (num_cpu as u64)) as u16
}

/// The processor that stands for the thread `tid`: its hash modulo the
/// number of processors.
pub fn cpu_id_from_tid(tid: usize, num_cpu: u16) -> (r: u16)
    requires
        num_cpu > 0,
    ensures
        r == sea_hash_of(tid as u64) % (num_cpu as u64),
        r < num_cpu,
{
    cpu_id_from_hash(sea_hash(tid as u64), num_cpu)
}

/// The node of each of the processors `0..num_cpu`, by number.
pub fn cpu_node_table(cpu_node: &HashMap<u16, u16>, num_cpu: u16) -> (r: Vec<u16>)
    ensures
        r@.len() == num_cpu,
        forall|c: int|
            0 <= c < num_cpu ==> r@[c] == (if cpu_node@.contains_key(c as u16) {
                cpu_node@[c as u16]
            } else {
                0
            }),
{
    let mut table: Vec<u16> = Vec::new();
    let mut cpu: u16 = 0;
    while cpu < num_cpu
        invariant
            0 <= cpu <= num_cpu,
            table@.len() == cpu,
            forall|c: int|
                0 <= c < cpu ==> table@[c] == (if cpu_node@.contains_key(c as u16) {
                    cpu_node@[c as u16]
                } else {
                    0
                }),
        decreases num_cpu - cpu,
    {
        table.push(numa_from_cpu_id(cpu_node, cpu));
        cpu = cpu + 1;
    }
    table
}

/// The number of values among the first `n` of `s` that no earlier one
/// equals: the number of different values.
pub open spec fn distinct_upto(s: Seq<u16>, n: int) -> nat
    decreases n,
{
    if n <= 0 {
        0
    } else {
        distinct_upto(s, n - 1) + (if exists|j: int| 0 <= j < n - 1 && #[trigger] s[j] == s[n - 1] {
            0nat
        } else {
            1nat
        })
    }
}

/// The number of nodes that have a processor, given the node of each
/// processor.
pub fn num_numa_nodes(cpu_nodes: &Vec<u16>) -> (r: usize)
    ensures
        r == distinct_upto(cpu_nodes@, cpu_nodes@.len() as int),
        r <= cpu_nodes@.len(),
{
    let mut count: usize = 0;
    let mut i: usize = 0;
    while i < cpu_nodes.len()
        invariant
            0 <= i <= cpu_nodes@.len(),
            count == distinct_upto(cpu_nodes@, i as int),
            count <= i,
        decreases cpu_nodes@.len() - i,
    {
        let mut seen: bool = false;
        let mut j: usize = 0;
        while j < i
            invariant
                0 <= j <= i,
                i < cpu_nodes@.len(),
                seen == exists|k: int| 0 <= k < j && #[trigger] cpu_nodes@[k] == cpu_nodes@[i as int],
            decreases i - j,
        {
            if cpu_nodes[j] == cpu_nodes[i] {
                seen = true;
            }
            j = j + 1;
        }
        if !seen {
            count = count + 1;
        }
        i = i + 1;
    }
    count
}

/// The processors to which a thread of node `node_id` is to be bound: those
/// of the first entry of `nodes` for that node, or nothing where there is no
/// such node.
pub fn set_node_affinity(nodes: &Vec<NodeEntry>, node_id: u16) -> (r: Option<Vec<u16>>)
    ensures
        r is Some == exists|i: int| 0 <= i < nodes@.len() && nodes@[i].node == node_id,
        r matches Some(cpus) ==> exists|i: int|
            0 <= i < nodes@.len() && nodes@[i].node == node_id && cpus@ == cpu_items(nodes@[i].cpus)
                && forall|k: int| 0 <= k < i ==> nodes@[k].node != node_id,
{
    let mut i: usize = 0;
    while i < nodes.len()
        invariant
            0 <= i <= nodes@.len(),
            forall|k: int| 0 <= k < i ==> nodes@[k].node != node_id,
        decreases nodes@.len() - i,
    {
        if nodes[i].node == node_id {
            let count: usize = cpus_len(&nodes[i].cpus);
            let mut cpus: Vec<u16> = Vec::new();
            let mut j: usize = 0;
            while j < count
                invariant
                    0 <= j <= count,
                    i < nodes@.len(),
                    count == cpu_items(nodes@[i as int].cpus).len(),
                    cpus@ == cpu_items(nodes@[i as int].cpus).take(j as int),
                decreases count - j,
            {
                cpus.push(cpus_get(&nodes[i].cpus, j));
                proof {
                    assert(cpus@ =~= cpu_items(nodes@[i as int].cpus).take(j as int + 1));
                }
                j = j + 1;
            }
            proof {
                assert(cpus@ =~= cpu_items(nodes@[i as int].cpus));
            }
            return Some(cpus);
        }
        i = i + 1;
    }
    None
}

/// The bytes of memory that `avail_kib` kibibytes are, or the largest word
/// where they do not fit one.
pub fn total_memory(avail_kib: u64) -> (r: usize)
    ensures
        r == (if avail_kib * 1024 <= usize::MAX {
            (avail_kib * 1024) as usize
        } else {
            usize::MAX
        }),
{
    if avail_kib > (usize::MAX / 1024) as u64 {
        usize::MAX
    } else {
        (avail_kib as usize) * 1024
    }
}

} // verus!
