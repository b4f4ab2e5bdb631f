//! The GPUs of a machine: what is known of each, which of them can reach each
//! other's memory, and how far they are from the NUMA nodes.

use crate::ffi::cuda::{CUDA_ERROR_PEER_ACCESS_ALREADY_ENABLED, CUDA_SUCCESS};
use crate::scan;
use crate::text;
use vstd::prelude::*;
use vstd::string::*;

verus! {

/// The distance taken for nodes of which none is known.
pub const FAR: u32 = 30;

/// The distance of a node to itself.
pub const LOCAL: u32 = 10;

/// The text that lossy decoding makes of `bytes`: the UTF-8 they hold, with a
/// replacement character for what is no UTF-8.
pub uninterp spec fn lossy_text(bytes: Seq<u8>) -> Seq<char>;

/// `String::from_utf8_lossy` of the standard library, whose result
/// [`lossy_text`] names: it depends on the bytes alone.
#[verifier::external_body]
fn decode_lossy(bytes: &[u8]) -> (r: String)
    ensures
        r@ == lossy_text(bytes@),
{
    String::from_utf8_lossy(bytes).into_owned()
}

/// Distances between NUMA nodes. A node is 10 away from itself, one on another
/// socket 20 to 30.
#[derive(Debug, Clone)]
pub struct NumaTopology {
    /// `distances[src][dst]`.
    pub distances: Vec<Vec<u32>>,
    /// Number of NUMA nodes.
    pub node_count: usize,
}

/// The distances that a line of `numactl --hardware` states, if it states any:
/// `node 0 distances: 10 21 31`.
pub open spec fn stated_distances(line: Seq<char>) -> Seq<u32> {
    let t = scan::trimmed(line);
    if scan::begins_with(t, "node"@) && scan::occurs(t, "distances:"@) {
        scan::numbers(scan::words(scan::after_first(t, ':')))
    } else {
        seq![]
    }
}

/// The rows of distances that some lines state.
pub open spec fn distance_rows(lines: Seq<Seq<char>>) -> Seq<Seq<u32>>
    decreases lines.len(),
{
    if lines.len() == 0 {
        seq![]
    } else {
        let row = stated_distances(lines.last());
        if row.len() > 0 {
            distance_rows(lines.drop_last()).push(row)
        } else {
            distance_rows(lines.drop_last())
        }
    }
}

/// Length of the longest of `rows`.
pub open spec fn widest(rows: Seq<Seq<u32>>) -> nat
    decreases rows.len(),
{
    if rows.len() == 0 {
        0
    } else if rows.last().len() > widest(rows.drop_last()) {
        rows.last().len()
    } else {
        widest(rows.drop_last())
    }
}

/// No row is longer than the widest.
pub proof fn law_no_row_is_wider(rows: Seq<Seq<u32>>, i: int)
    requires
        0 <= i < rows.len(),
    ensures
        rows[i].len() <= widest(rows),
    decreases rows.len(),
{
    if i < rows.len() - 1 {
        law_no_row_is_wider(rows.drop_last(), i);
    }
}

/// The percentage of the bandwidth that is left at distance `d`.
pub open spec fn bandwidth_percent(d: u32) -> u32 {
    if d <= 12 {
        95
    } else if d <= 20 {
        80
    } else {
        65
    }
}

/// Distance never adds bandwidth.
pub proof fn law_bandwidth_falls_with_distance(near: u32, far: u32)
    requires
        near <= far,
    ensures
        bandwidth_percent(near) >= bandwidth_percent(far),
{
}

/// Bandwidth is lost in two steps: behind a distance of 12, and behind one of 20.
pub proof fn law_bandwidth_is_lost_in_steps(d: u32)
    ensures
        bandwidth_percent(d) == 95 <==> d <= 12,
        bandwidth_percent(d) == 80 <==> 12 < d <= 20,
        bandwidth_percent(d) == 65 <==> 20 < d,
{
}

/// Some row is as long as the widest, and without rows there is no width.
pub proof fn law_some_row_is_widest(rows: Seq<Seq<u32>>)
    ensures
        rows.len() == 0 ==> widest(rows) == 0,
        rows.len() > 0 ==> exists|i: int|
            0 <= i < rows.len() && (#[trigger] rows[i]).len() == widest(rows),
    decreases rows.len(),
{
    if rows.len() > 0 {
        let init = rows.drop_last();
        law_some_row_is_widest(init);
        if rows.last().len() > widest(init) {
            assert(rows[rows.len() - 1].len() == widest(rows));
        } else if init.len() > 0 {
            let i = choose|i: int| 0 <= i < init.len() && (#[trigger] init[i]).len() == widest(init);
            assert(rows[i].len() == widest(rows));
        } else {
            assert(rows[rows.len() - 1].len() == 0);
        }
    }
}

/// A line adds the row of distances that it states, behind the rows there are,
/// and nothing where it states none. Only a line that begins with `node` and has
/// `distances:` in it states any, white space at its ends left aside.
pub proof fn law_rows_come_in_the_order_of_the_lines(lines: Seq<Seq<char>>, line: Seq<char>)
    ensures
        distance_rows(Seq::empty()) == Seq::<Seq<u32>>::empty(),
        stated_distances(line).len() > 0 ==> distance_rows(lines.push(line)) == distance_rows(
            lines,
        ) + seq![stated_distances(line)],
        stated_distances(line).len() == 0 ==> distance_rows(lines.push(line)) == distance_rows(
            lines,
        ),
        !scan::begins_with(scan::trimmed(line), "node"@) ==> stated_distances(line).len() == 0,
        !scan::occurs(scan::trimmed(line), "distances:"@) ==> stated_distances(line).len() == 0,
{
    assert(lines.push(line).drop_last() =~= lines);
    assert(distance_rows(lines).push(stated_distances(line)) =~= distance_rows(lines) + seq![
        stated_distances(line),
    ]);
}

fn stated(line: &Vec<char>) -> (r: Vec<u32>)
    ensures
        r@ == stated_distances(line@),
{
    let t = scan::trim(line);
    if scan::has_prefix(&t, "node") && scan::has_part(&t, "distances:") {
        let rest = scan::rest_after(&t, ':');
        scan::parse_numbers(&scan::split_words(&rest))
    } else {
        Vec::new()
    }
}

impl NumaTopology {
    /// The row of distances from `src`, as far as there is one.
    pub open spec fn rows(&self) -> Seq<Seq<u32>> {
        scan::views(self.distances@)
    }

    /// The distance between two nodes.
    pub open spec fn between(&self, src: int, dst: int) -> u32 {
        if 0 <= src < self.distances@.len() && 0 <= dst < self.distances@[src]@.len() {
            self.distances@[src]@[dst]
        } else {
            FAR
        }
    }

    /// One node at distance 10 from itself.
    pub open spec fn is_single_node(&self) -> bool {
        self.rows() == seq![seq![LOCAL]] && self.node_count == 1
    }

    /// What the lines of a topology listing say; where they say nothing there
    /// is a single node.
    pub open spec fn is_listed(&self, lines: Seq<Seq<char>>) -> bool {
        if distance_rows(lines).len() == 0 {
            self.is_single_node()
        } else {
            self.rows() == distance_rows(lines) && self.node_count == widest(self.rows())
        }
    }

    /// The topology that the output of `numactl --hardware` states.
    pub fn from_numactl(output: &[u8]) -> (r: Self)
        ensures
            r.is_listed(scan::lines(lossy_text(output@))),
    {
        let text = decode_lossy(output);
        NumaTopology::from_listing(text.as_str())
    }

    /// The topology that a listing in the form of `numactl --hardware` states.
    pub fn from_listing(listing: &str) -> (r: Self)
        ensures
            r.is_listed(scan::lines(listing@)),
    {
        let chars = scan::characters(listing);
        let lines = scan::split_lines(&chars);
        let ghost all = scan::views(lines@);
        let mut distances: Vec<Vec<u32>> = Vec::new();
        let mut node_count: usize = 0;
        let mut i: usize = 0;
        while i < lines.len()
            invariant
                i <= lines@.len(),
                all == scan::views(lines@),
                scan::views(distances@) == distance_rows(all.take(i as int)),
                node_count == widest(scan::views(distances@)),
            decreases lines@.len() - i,
        {
            let row = stated(&lines[i]);
            proof {
                let u = all.take(i + 1);
                assert(u.drop_last() =~= all.take(i as int));
                assert(u.last() == lines@[i as int]@);
            }
            if row.len() > 0 {
                let ghost before = distances@;
                if row.len() > node_count {
                    node_count = row.len();
                }
                let ghost added = row@;
                distances.push(row);
                proof {
                    let after = scan::views(distances@);
                    assert(after =~= scan::views(before).push(added));
                    assert(after.drop_last() =~= scan::views(before));
                }
            }
            i = i + 1;
        }
        assert(all.take(i as int) =~= all);
        if distances.len() == 0 {
            return NumaTopology::single_node();
        }
        NumaTopology { distances, node_count }
    }

    /// A topology of one node.
    pub fn single_node() -> (r: Self)
        ensures
            r.is_single_node(),
    {
        let row: Vec<u32> = vec![LOCAL];
        let ghost one = row@;
        let distances: Vec<Vec<u32>> = vec![row];
        assert(one =~= seq![LOCAL]);
        assert(scan::views(distances@) =~= seq![seq![LOCAL]]);
        NumaTopology { distances, node_count: 1 }
    }

    /// Distance between two nodes, or 30 where it is not known.
    pub fn distance(&self, src: usize, dst: usize) -> (r: u32)
        ensures
            r == self.between(src as int, dst as int),
    {
        if src < self.distances.len() && dst < self.distances[src].len() {
            self.distances[src][dst]
        } else {
            FAR
        }
    }

    /// The share of the bandwidth that is left between two nodes, in percent:
    /// 95 up to distance 12, 80 up to 20, else 65.
    pub fn dma_bandwidth_factor(&self, src_node: usize, dst_node: usize) -> (r: u32)
        ensures
            r == bandwidth_percent(self.between(src_node as int, dst_node as int)),
    {
        let d: u32 = self.distance(src_node, dst_node);
        if d <= 12 {
            95
        } else if d <= 20 {
            80
        } else {
            65
        }
    }
}

/// What is known of one GPU.
#[derive(Debug)]
pub struct GpuInfo {
    /// CUDA device ordinal.
    pub device_id: i32,
    /// Name of the device.
    pub name: String,
    /// Total memory in bytes.
    pub total_vram: usize,
    /// Free memory in bytes when the device was discovered.
    pub free_vram: usize,
    /// Compute capability (major, minor).
    pub compute_capability: (i32, i32),
    /// Number of streaming multiprocessors.
    pub sm_count: i32,
    /// NUMA node closest to the device.
    pub numa_node: usize,
    /// PCI bus.
    pub pci_bus_id: i32,
    /// PCI device.
    pub pci_device_id: i32,
    /// Kernels can run side by side.
    pub concurrent_kernels: bool,
}

impl Clone for GpuInfo {
    fn clone(&self) -> (r: Self)
        ensures
            r == *self,
    {
        GpuInfo {
            device_id: self.device_id,
            name: self.name.clone(),
            total_vram: self.total_vram,
            free_vram: self.free_vram,
            compute_capability: self.compute_capability,
            sm_count: self.sm_count,
            numa_node: self.numa_node,
            pci_bus_id: self.pci_bus_id,
            pci_device_id: self.pci_device_id,
            concurrent_kernels: self.concurrent_kernels,
        }
    }
}

/// What the driver and the operating system answer about one GPU.
#[derive(Debug)]
pub struct DeviceAnswers {
    /// The buffer that the name was written to, up to a zero byte.
    pub name: Vec<u8>,
    /// Total memory in bytes.
    pub total_vram: usize,
    /// Free memory in bytes.
    pub free_vram: usize,
    /// Compute capability (major, minor).
    pub compute_capability: (i32, i32),
    /// Number of streaming multiprocessors.
    pub sm_count: i32,
    /// Non-zero where kernels can run side by side.
    pub concurrent_kernels: i32,
    /// PCI bus.
    pub pci_bus_id: i32,
    /// PCI device.
    pub pci_device_id: i32,
    /// The text of the NUMA node files that could be read, in the order of
    /// [`numa_node_paths`].
    pub numa_node_files: Vec<Option<String>>,
}

/// The bytes before the first zero, or nothing where there is no zero.
pub open spec fn until_zero(bytes: Seq<u8>) -> Seq<u8> {
    if exists|k: int| 0 <= k < bytes.len() && #[trigger] bytes[k] == 0 {
        bytes.take(bytes.index_of_first(0u8).unwrap())
    } else {
        seq![]
    }
}

/// What comes before the first zero has no zero in it and a zero behind it. Where
/// there is no zero nothing is taken.
pub proof fn law_names_end_at_the_first_zero(bytes: Seq<u8>)
    ensures
        ({
            let taken = until_zero(bytes);
            let n = taken.len() as int;
            &&& taken.is_prefix_of(bytes)
            &&& !taken.contains(0u8)
            &&& bytes.contains(0u8) ==> n < bytes.len() && bytes[n] == 0
            &&& !bytes.contains(0u8) ==> n == 0
        }),
{
    bytes.index_of_first_ensures(0u8);
    if bytes.contains(0u8) {
        let k = choose|k: int| 0 <= k < bytes.len() && bytes[k] == 0u8;
        assert(bytes[k] == 0);
        let f = bytes.index_of_first(0u8).unwrap();
        assert(bytes[f] == 0);
        assert(until_zero(bytes) == bytes.take(f));
        if until_zero(bytes).contains(0u8) {
            let j = choose|j: int| 0 <= j < f && bytes.take(f)[j] == 0u8;
            assert(bytes[j] == 0u8);
        }
    }
}

/// The name that a device wrote to a buffer: all that comes before the first
/// zero byte, and nothing where there is none.
pub fn device_name(buffer: &[u8]) -> (r: String)
    ensures
        r@ == if exists|k: int| 0 <= k < buffer@.len() && #[trigger] buffer@[k] == 0 {
            lossy_text(until_zero(buffer@))
        } else {
            seq![]
        },
{
    let mut i: usize = 0;
    while i < buffer.len() && buffer[i] != 0
        invariant
            i <= buffer@.len(),
            forall|k: int| 0 <= k < i ==> #[trigger] buffer@[k] != 0,
        decreases buffer@.len() - i,
    {
        i = i + 1;
    }
    if i == buffer.len() {
        let r = String::new();
        assert(r@ =~= seq![]);
        return r;
    }
    proof {
        buffer@.index_of_first_ensures(0u8);
        assert(buffer@[i as int] == 0);
        assert(buffer@.contains(0u8));
        let f = buffer@.index_of_first(0u8).unwrap();
        assert(buffer@[f] == 0);
        assert(f == i);
    }
    decode_lossy(vstd::slice::slice_subrange(buffer, 0, i))
}

/// The NUMA node that a file of the operating system states: a number, with a
/// negative one meaning that there is none and taken as node zero.
pub open spec fn stated_node(content: Seq<char>) -> Option<usize> {
    scan::literal_at_least_zero(scan::trimmed(content))
}

/// The node that the first file that states one states.
pub open spec fn first_stated_node(files: Seq<Option<String>>) -> Option<usize>
    decreases files.len(),
{
    if files.len() == 0 {
        None
    } else if files[0] is Some && stated_node(files[0]->0@) is Some {
        stated_node(files[0]->0@)
    } else {
        first_stated_node(files.skip(1))
    }
}

/// The node is that of the first file that could be read and states one. There
/// is none just where no file states one.
pub proof fn law_first_file_decides(files: Seq<Option<String>>)
    ensures
        match first_stated_node(files) {
            Some(node) => exists|i: int|
                {
                    &&& 0 <= i < files.len()
                    &&& #[trigger] files[i] is Some
                    &&& stated_node(files[i]->0@) == Some(node)
                    &&& forall|j: int|
                        0 <= j < i && (#[trigger] files[j]) is Some ==> stated_node(
                            files[j]->0@,
                        ) is None
                },
            None => forall|j: int|
                0 <= j < files.len() && (#[trigger] files[j]) is Some ==> stated_node(
                    files[j]->0@,
                ) is None,
        },
    decreases files.len(),
{
    if files.len() > 0 && !(files[0] is Some && stated_node(files[0]->0@) is Some) {
        let rest = files.skip(1);
        law_first_file_decides(rest);
        assert forall|j: int| 1 <= j < files.len() implies #[trigger] files[j] == rest[j - 1] by {}
        if let Some(node) = first_stated_node(rest) {
            let i = choose|i: int|
                {
                    &&& 0 <= i < rest.len()
                    &&& #[trigger] rest[i] is Some
                    &&& stated_node(rest[i]->0@) == Some(node)
                    &&& forall|j: int|
                        0 <= j < i && (#[trigger] rest[j]) is Some ==> stated_node(
                            rest[j]->0@,
                        ) is None
                };
            assert(files[i + 1] == rest[i]);
        }
    }
}

/// The NUMA node stated by the first of some files that states one. A file
/// that could not be read is `None`.
pub fn read_numa_node(files: &Vec<Option<String>>) -> (r: Option<usize>)
    ensures
        r == first_stated_node(files@),
{
    let mut i: usize = 0;
    assert(files@.skip(0) =~= files@);
    while i < files.len()
        invariant
            i <= files@.len(),
            first_stated_node(files@.skip(i as int)) == first_stated_node(files@),
        decreases files@.len() - i,
    {
        let ghost rest = files@.skip(i as int);
        if let Some(content) = &files[i] {
            let chars = scan::characters(content.as_str());
            let stated = scan::parse_at_least_zero(&scan::trim(&chars));
            if stated.is_some() {
                return stated;
            }
        }
        assert(rest.skip(1) =~= files@.skip(i + 1));
        i = i + 1;
    }
    None
}

/// The two files that may state the NUMA node of GPU `ordinal`.
pub open spec fn numa_node_path_texts(ordinal: i32) -> (Seq<char>, Seq<char>) {
    (
        "/sys/bus/pci/devices/0000:"@ + text::hex2(ordinal as u32 as nat) + ":00.0/numa_node"@,
        "/sys/class/drm/card"@ + text::decimal(ordinal as int) + "/device/numa_node"@,
    )
}

/// The two files that may state the NUMA node of a GPU.
pub fn numa_node_paths(ordinal: i32) -> (r: (String, String))
    ensures
        (r.0@, r.1@) == numa_node_path_texts(ordinal),
{
    let mut by_bus: String = "/sys/bus/pci/devices/0000:".to_owned();
    text::append_hex2(
        &mut by_bus,
        #[verifier::truncate]
        (ordinal as u32),
    );
    by_bus.append(":00.0/numa_node");
    let mut by_card: String = "/sys/class/drm/card".to_owned();
    text::append_signed(&mut by_card, ordinal);
    by_card.append("/device/numa_node");
    (by_bus, by_card)
}

impl GpuInfo {
    /// What the answers about GPU `device_id` say of it.
    pub open spec fn says(&self, device_id: i32, a: DeviceAnswers) -> bool {
        &&& self.device_id == device_id
        &&& self.name@ == if exists|k: int| 0 <= k < a.name@.len() && #[trigger] a.name@[k] == 0 {
            lossy_text(until_zero(a.name@))
        } else {
            seq![]
        }
        &&& self.total_vram == a.total_vram
        &&& self.free_vram == a.free_vram
        &&& self.compute_capability == a.compute_capability
        &&& self.sm_count == a.sm_count
        &&& self.numa_node == match first_stated_node(a.numa_node_files@) {
            Some(n) => n,
            None => 0,
        }
        &&& self.pci_bus_id == a.pci_bus_id
        &&& self.pci_device_id == a.pci_device_id
        &&& self.concurrent_kernels == (a.concurrent_kernels != 0)
    }

    /// What the answers about a GPU say of it. A GPU whose node is not stated
    /// is taken to be on node zero.
    pub fn new(device_id: i32, answers: &DeviceAnswers) -> (r: Self)
        ensures
            r.says(device_id, *answers),
    {
        let numa_node: usize = match read_numa_node(&answers.numa_node_files) {
            Some(n) => n,
            None => 0,
        };
        GpuInfo {
            device_id,
            name: device_name(answers.name.as_slice()),
            total_vram: answers.total_vram,
            free_vram: answers.free_vram,
            compute_capability: answers.compute_capability,
            sm_count: answers.sm_count,
            numa_node,
            pci_bus_id: answers.pci_bus_id,
            pci_device_id: answers.pci_device_id,
            concurrent_kernels: answers.concurrent_kernels != 0,
        }
    }
}

/// Which GPUs can reach each other's memory directly.
#[derive(Debug)]
pub struct PeerMatrix {
    can_access: Vec<Vec<bool>>,
    enabled: Vec<Vec<bool>>,
}

/// Cell `[i][j]` of a matrix, or false outside it.
pub open spec fn cell(m: Seq<Seq<bool>>, i: int, j: int) -> bool {
    0 <= i < m.len() && 0 <= j < m[i].len() && m[i][j]
}

/// `m` has `n` rows of `n` cells.
pub open spec fn is_square(m: Seq<Seq<bool>>, n: int) -> bool {
    m.len() == n && forall|i: int| 0 <= i < n ==> (#[trigger] m[i]).len() == n
}

/// What a [`PeerMatrix`] stands for.
#[verifier::ext_equal]
pub struct Peers {
    /// Number of GPUs.
    pub count: nat,
    /// The pairs of which the first can reach the second.
    pub capable: Set<(int, int)>,
    /// The pairs for which direct access is active.
    pub active: Set<(int, int)>,
}

impl Peers {
    /// The state once the driver has answered `code` to the request to enable
    /// direct access for a pair.
    pub open spec fn recorded(self, src: int, dst: int, code: i32) -> Peers {
        if code == CUDA_SUCCESS || code == CUDA_ERROR_PEER_ACCESS_ALREADY_ENABLED {
            Peers { active: self.active.insert((src, dst)), ..self }
        } else {
            self
        }
    }
}

/// The pairs of indices below `n` that are not yet active and can be.
pub open spec fn to_enable(p: Peers, i: int, j: int) -> bool {
    0 <= i < p.count && 0 <= j < p.count && i != j && p.capable.contains((i, j))
        && !p.active.contains((i, j))
}

fn lookup(m: &Vec<Vec<bool>>, i: usize, j: usize) -> (r: bool)
    ensures
        r == cell(scan::views(m@), i as int, j as int),
{
    i < m.len() && j < m[i].len() && m[i][j]
}

fn blank_row(n: usize) -> (r: Vec<bool>)
    ensures
        r@ == Seq::new(n as nat, |j: int| false),
{
    let mut row: Vec<bool> = Vec::new();
    let mut j: usize = 0;
    while j < n
        invariant
            j <= n,
            row@ == Seq::new(j as nat, |j: int| false),
        decreases n - j,
    {
        row.push(false);
        j = j + 1;
        assert(row@ =~= Seq::new(j as nat, |j: int| false));
    }
    row
}

impl View for PeerMatrix {
    type V = Peers;

    closed spec fn view(&self) -> Peers {
        Peers {
            count: self.can_access@.len(),
            capable: Set::new(
                |p: (int, int)| cell(scan::views(self.can_access@), p.0, p.1),
            ),
            active: Set::new(|p: (int, int)| cell(scan::views(self.enabled@), p.0, p.1)),
        }
    }
}

impl PeerMatrix {
    /// Both matrices are square and of one size.
    pub closed spec fn wf(&self) -> bool {
        &&& is_square(scan::views(self.can_access@), self.can_access@.len() as int)
        &&& is_square(scan::views(self.enabled@), self.can_access@.len() as int)
    }

    /// The matrix for `n` GPUs from what the driver answered for each pair:
    /// zero where the first cannot reach the second. A GPU can always reach
    /// itself, whatever stands in the diagonal.
    pub fn discover(answers: &Vec<Vec<i32>>) -> (r: Self)
        requires
            forall|i: int|
                0 <= i < answers@.len() ==> (#[trigger] answers@[i])@.len() == answers@.len(),
        ensures
            r.wf(),
            r@.count == answers@.len(),
            r@.active == Set::<(int, int)>::empty(),
            forall|i: int, j: int| #[trigger]
                r@.capable.contains((i, j)) <==> 0 <= i < answers@.len() && 0 <= j
                    < answers@.len() && (i == j || answers@[i]@[j] != 0),
    {
        let n: usize = answers.len();
        let mut can_access: Vec<Vec<bool>> = Vec::new();
        let mut enabled: Vec<Vec<bool>> = Vec::new();
        let mut i: usize = 0;
        while i < n
            invariant
                n == answers@.len(),
                i <= n,
                forall|k: int| 0 <= k < answers@.len() ==> (#[trigger] answers@[k])@.len() == n,
                can_access@.len() == i,
                enabled@.len() == i,
                forall|k: int|
                    #![trigger can_access@[k]]
                    0 <= k < i ==> can_access@[k]@.len() == n && forall|j: int|
                        0 <= j < n ==> #[trigger] can_access@[k]@[j] == (k == j || answers@[k]@[j]
                            != 0),
                forall|k: int|
                    0 <= k < i ==> (#[trigger] enabled@[k])@ == Seq::new(
                        n as nat,
                        |j: int| false,
                    ),
            decreases n - i,
        {
            let mut row: Vec<bool> = Vec::new();
            let mut j: usize = 0;
            while j < n
                invariant
                    n == answers@.len(),
                    i < n,
                    j <= n,
                    answers@[i as int]@.len() == n,
                    row@.len() == j,
                    forall|k: int|
                        0 <= k < j ==> #[trigger] row@[k] == (i == k || answers@[i as int]@[k]
                            != 0),
                decreases n - j,
            {
                row.push(i == j || answers[i][j] != 0);
                j = j + 1;
            }
            can_access.push(row);
            enabled.push(blank_row(n));
            i = i + 1;
        }
        let r = PeerMatrix { can_access, enabled };
        proof {
            let m = scan::views(r.can_access@);
            assert forall|k: int| 0 <= k < n implies (#[trigger] m[k]).len() == n by {
                assert(m[k] == r.can_access@[k]@);
            }
            let e = scan::views(r.enabled@);
            assert forall|k: int| 0 <= k < n implies (#[trigger] e[k]).len() == n by {
                assert(e[k] == r.enabled@[k]@);
            }
            assert forall|a: int, b: int| !cell(e, a, b) by {
                if 0 <= a < e.len() {
                    assert(e[a] == r.enabled@[a]@);
                }
            }
            assert(r@.active =~= Set::<(int, int)>::empty());
            assert forall|a: int, b: int| #[trigger]
                r@.capable.contains((a, b)) <==> 0 <= a < n && 0 <= b < n && (a == b
                    || answers@[a]@[b] != 0) by {
                if 0 <= a < n {
                    assert(m[a] == r.can_access@[a]@);
                    if 0 <= b < n {
                        assert(r.can_access@[a]@[b] == (a == b || answers@[a]@[b] != 0));
                    }
                }
            }
        }
        r
    }

    /// The pairs for which direct access is to be enabled, row by row: those
    /// that the hardware is capable of and that are not active yet.
    pub fn wanted(&self) -> (r: Vec<(usize, usize)>)
        requires
            self.wf(),
        ensures
            forall|k: int|
                0 <= k < r@.len() ==> to_enable(
                    self@,
                    (#[trigger] r@[k]).0 as int,
                    r@[k].1 as int,
                ),
            forall|i: int, j: int|
                to_enable(self@, i, j) ==> r@.contains((i as usize, j as usize)),
            forall|a: int, b: int|
                0 <= a < b < r@.len() ==> before(#[trigger] r@[a], #[trigger] r@[b]),
    {
        let n: usize = self.can_access.len();
        let mut r: Vec<(usize, usize)> = Vec::new();
        let mut i: usize = 0;
        while i < n
            invariant
                n == self.can_access@.len(),
                i <= n,
                forall|k: int|
                    0 <= k < r@.len() ==> (#[trigger] r@[k]).0 < i && to_enable(
                        self@,
                        r@[k].0 as int,
                        r@[k].1 as int,
                    ),
                forall|a: int, b: int|
                    #![trigger to_enable(self@, a, b)]
                    a < i && to_enable(self@, a, b) ==> r@.contains((a as usize, b as usize)),
                forall|a: int, b: int|
                    0 <= a < b < r@.len() ==> before(#[trigger] r@[a], #[trigger] r@[b]),
            decreases n - i,
        {
            let mut j: usize = 0;
            while j < n
                invariant
                    n == self.can_access@.len(),
                    i < n,
                    j <= n,
                    forall|k: int|
                        0 <= k < r@.len() ==> before(#[trigger] r@[k], (i, j)) && to_enable(
                            self@,
                            r@[k].0 as int,
                            r@[k].1 as int,
                        ),
                    forall|a: int, b: int|
                        #![trigger to_enable(self@, a, b)]
                        (a < i || a == i && b < j) && to_enable(self@, a, b) ==> r@.contains(
                            (a as usize, b as usize),
                        ),
                    forall|a: int, b: int|
                        0 <= a < b < r@.len() ==> before(#[trigger] r@[a], #[trigger] r@[b]),
                decreases n - j,
            {
                let ghost pre = r@;
                let want = i != j && lookup(&self.can_access, i, j) && !lookup(&self.enabled, i, j);
                if want {
                    r.push((i, j));
                    assert(r@[pre.len() as int] == (i, j));
                }
                assert forall|a: int, b: int|
                    #![trigger to_enable(self@, a, b)]
                    (a < i || a == i && b < j + 1) && to_enable(self@, a, b) implies r@.contains(
                    (a as usize, b as usize),
                ) by {
                    if a < i || b < j {
                        let k = choose|k: int|
                            0 <= k < pre.len() && pre[k] == (a as usize, b as usize);
                        assert(r@[k] == pre[k]);
                    } else {
                        assert(want);
                    }
                }
                j = j + 1;
            }
            i = i + 1;
        }
        r
    }

    /// Take down what the driver answered to the request to enable direct
    /// access for a pair. A mapping that was there before counts as enabled;
    /// any other failure leaves the pair as it is.
    pub fn record(&mut self, src: usize, dst: usize, code: i32)
        requires
            old(self).wf(),
            src < old(self)@.count,
            dst < old(self)@.count,
        ensures
            final(self).wf(),
            final(self)@ == old(self)@.recorded(src as int, dst as int, code),
    {
        if code == CUDA_SUCCESS || code == CUDA_ERROR_PEER_ACCESS_ALREADY_ENABLED {
            let ghost pre = self@;
            let ghost was = scan::views(self.enabled@);
            assert(was[src as int] == self.enabled@[src as int]@);
            let mut row: Vec<bool> = self.enabled[src].clone();
            row[dst] = true;
            let ghost changed = row@;
            self.enabled[src] = row;
            proof {
                let now = scan::views(self.enabled@);
                assert(now =~= was.update(src as int, changed));
                assert forall|i: int, j: int| #[trigger]
                    cell(now, i, j) <==> cell(was, i, j) || (i == src && j == dst) by {
                    if i == src {
                        assert(now[i] == changed);
                        assert(changed =~= was[src as int].update(dst as int, true));
                    } else if 0 <= i < now.len() {
                        assert(now[i] == was[i]);
                    }
                }
                assert(self@.active =~= pre.active.insert((src as int, dst as int)));
                assert forall|i: int| 0 <= i < now.len() implies (#[trigger] now[i]).len()
                    == pre.count by {
                    if i != src {
                        assert(now[i] == was[i]);
                    }
                }
            }
        }
    }

    /// Whether a GPU can reach another's memory directly.
    pub fn can_access(&self, src: usize, dst: usize) -> (r: bool)
        ensures
            r == self@.capable.contains((src as int, dst as int)),
    {
        lookup(&self.can_access, src, dst)
    }

    /// Whether direct access is active for a pair.
    pub fn is_enabled(&self, src: usize, dst: usize) -> (r: bool)
        ensures
            r == self@.active.contains((src as int, dst as int)),
    {
        lookup(&self.enabled, src, dst)
    }
}

/// `a` comes before `b`, row by row.
pub open spec fn before(a: (usize, usize), b: (usize, usize)) -> bool {
    a.0 < b.0 || a.0 == b.0 && a.1 < b.1
}

/// Pairs come row by row: those of a smaller first index before all others, and
/// of the same first index those of a smaller second.
pub proof fn law_pairs_come_row_by_row(i: usize, j: usize, k: usize, l: usize)
    ensures
        i < k ==> before((i, j), (k, l)) && !before((k, l), (i, j)),
        j < l ==> before((i, j), (i, l)) && !before((i, l), (i, j)),
        !before((i, j), (i, j)),
{
}

/// The GPUs of a machine, their reach and the NUMA topology.
pub struct GpuCluster {
    /// What is known of each GPU, in the order of `ordinals`.
    pub infos: Vec<GpuInfo>,
    /// The CUDA device ordinals.
    pub ordinals: Vec<i32>,
    /// Which GPUs can reach each other's memory.
    pub peer_matrix: PeerMatrix,
    /// Distances between the NUMA nodes.
    pub numa: NumaTopology,
}

/// `i` is the last position of `x` in `s`.
pub open spec fn is_last_index(s: Seq<i32>, x: i32, i: int) -> bool {
    &&& 0 <= i < s.len()
    &&& s[i] == x
    &&& forall|j: int| i < j < s.len() ==> #[trigger] s[j] != x
}

/// The position of `x` in `s`, the last where there are several.
pub open spec fn position_of(s: Seq<i32>, x: i32) -> Option<usize>
    decreases s.len(),
{
    if s.len() == 0 {
        None
    } else if s.last() == x {
        Some((s.len() - 1) as usize)
    } else {
        position_of(s.drop_last(), x)
    }
}

/// The position of `x` in `s` is the last at which it stands, and there is one
/// just where it stands somewhere.
pub proof fn law_position_is_the_last(s: Seq<i32>, x: i32)
    requires
        s.len() <= usize::MAX,
    ensures
        match position_of(s, x) {
            Some(i) => is_last_index(s, x, i as int),
            None => !s.contains(x),
        },
        position_of(s, x) matches Some(i) ==> i < s.len() && s[i as int] == x && forall|j: int|
            i < j < s.len() ==> #[trigger] s[j] != x,
    decreases s.len(),
{
    if s.len() > 0 && s.last() != x {
        law_position_is_the_last(s.drop_last(), x);
        if s.contains(x) {
            let i = choose|i: int| 0 <= i < s.len() && s[i] == x;
            assert(s.drop_last()[i] == x);
        }
        if let Some(i) = position_of(s.drop_last(), x) {
            assert forall|j: int| i < j < s.len() implies #[trigger] s[j] != x by {
                if j < s.len() - 1 {
                    assert(s.drop_last()[j] == s[j]);
                }
            }
        }
    }
}

/// A node is at least as close to `from` as every other, and the first of those
/// that are equally close.
pub open spec fn is_closest(numa: NumaTopology, from: int, node: int) -> bool {
    &&& 0 <= node < numa.node_count
    &&& forall|k: int|
        0 <= k < numa.node_count ==> {
            &&& numa.between(from, node) <= #[trigger] numa.between(from, k)
            &&& k < node ==> numa.between(from, node) < numa.between(from, k)
        }
}

impl GpuCluster {
    /// There is something known of every GPU.
    pub open spec fn wf(&self) -> bool {
        self.infos@.len() == self.ordinals@.len() && self.peer_matrix.wf()
    }

    /// Put a cluster together.
    pub fn new(
        ordinals: Vec<i32>,
        infos: Vec<GpuInfo>,
        peer_matrix: PeerMatrix,
        numa: NumaTopology,
    ) -> (r: Self)
        requires
            infos@.len() == ordinals@.len(),
            peer_matrix.wf(),
        ensures
            r.wf(),
            r.ordinals == ordinals,
            r.infos == infos,
            r.peer_matrix == peer_matrix,
            r.numa == numa,
    {
        GpuCluster { infos, ordinals, peer_matrix, numa }
    }

    /// Index of a GPU in the cluster.
    pub fn index_of(&self, ordinal: i32) -> (r: Option<usize>)
        ensures
            r == position_of(self.ordinals@, ordinal),
    {
        let mut n: usize = self.ordinals.len();
        assert(self.ordinals@.take(n as int) =~= self.ordinals@);
        while n > 0
            invariant
                n <= self.ordinals@.len(),
                position_of(self.ordinals@.take(n as int), ordinal) == position_of(
                    self.ordinals@,
                    ordinal,
                ),
            decreases n,
        {
            let ghost u = self.ordinals@.take(n as int);
            assert(u.last() == self.ordinals@[n - 1]);
            if self.ordinals[n - 1] == ordinal {
                return Some(n - 1);
            }
            assert(u.drop_last() =~= self.ordinals@.take(n - 1));
            n = n - 1;
        }
        None
    }

    /// The node of a GPU of the cluster.
    pub open spec fn node_of(&self, ordinal: i32) -> int {
        self.infos@[position_of(self.ordinals@, ordinal)->0 as int].numa_node as int
    }

    /// `node` is the closest to a GPU of the cluster, the first where several
    /// are; node zero for a GPU that is not in the cluster or where no node is
    /// known.
    pub open spec fn is_optimal_node(&self, gpu_ordinal: i32, node: int) -> bool {
        if self.ordinals@.contains(gpu_ordinal) && self.numa.node_count > 0 {
            is_closest(self.numa, self.node_of(gpu_ordinal), node)
        } else {
            node == 0
        }
    }

    /// The percentage of the bandwidth that is left between a host node and a
    /// GPU.
    pub open spec fn factor(&self, gpu_ordinal: i32, dram_numa_node: int) -> u32 {
        if self.ordinals@.contains(gpu_ordinal) {
            bandwidth_percent(self.numa.between(dram_numa_node, self.node_of(gpu_ordinal)))
        } else {
            65
        }
    }

    /// The share of the bandwidth that is left between a host node and a GPU,
    /// in percent: that of a far node for a GPU that is not in the cluster.
    pub fn dma_factor(&self, gpu_ordinal: i32, dram_numa_node: usize) -> (r: u32)
        requires
            self.wf(),
        ensures
            r == self.factor(gpu_ordinal, dram_numa_node as int),
    {
        proof {
            assert(self.ordinals@.len() == self.ordinals.len());
            law_position_is_the_last(self.ordinals@, gpu_ordinal);
        }
        if let Some(idx) = self.index_of(gpu_ordinal) {
            self.numa.dma_bandwidth_factor(dram_numa_node, self.infos[idx].numa_node)
        } else {
            65
        }
    }

    /// The NUMA node whose memory is closest to a GPU: the first of the closest,
    /// and node zero for a GPU that is not in the cluster or where no node is
    /// known.
    pub fn optimal_dram_node(&self, gpu_ordinal: i32) -> (r: usize)
        requires
            self.wf(),
        ensures
            self.is_optimal_node(gpu_ordinal, r as int),
    {
        proof {
            assert(self.ordinals@.len() == self.ordinals.len());
            law_position_is_the_last(self.ordinals@, gpu_ordinal);
        }
        if let Some(idx) = self.index_of(gpu_ordinal) {
            let from: usize = self.infos[idx].numa_node;
            let mut best: usize = 0;
            let mut best_dist: u32 = u32::MAX;
            let mut node: usize = 0;
            while node < self.numa.node_count
                invariant
                    node <= self.numa.node_count,
                    best_dist == u32::MAX ==> best == 0,
                    best_dist < u32::MAX ==> best < node && best_dist == self.numa.between(
                        from as int,
                        best as int,
                    ),
                    forall|k: int|
                        0 <= k < node ==> {
                            &&& best_dist <= #[trigger] self.numa.between(from as int, k)
                            &&& k < best ==> best_dist < self.numa.between(from as int, k)
                        },
                decreases self.numa.node_count - node,
            {
                let d: u32 = self.numa.distance(from, node);
                if d < best_dist {
                    best_dist = d;
                    best = node;
                }
                node = node + 1;
            }
            best
        } else {
            0
        }
    }
}

/// A distance is what the topology says of the two nodes, and 30 where it says
/// nothing.
pub proof fn law_unknown_nodes_are_far(numa: NumaTopology, src: int, dst: int)
    ensures
        0 <= src < numa.rows().len() && 0 <= dst < numa.rows()[src].len() ==> numa.between(src, dst)
            == numa.rows()[src][dst],
        !(0 <= src < numa.rows().len() && 0 <= dst < numa.rows()[src].len()) ==> numa.between(
            src,
            dst,
        ) == 30,
        numa.is_single_node() ==> numa.between(0, 0) == 10 && (src != 0 || dst != 0
            ==> numa.between(src, dst) == 30),
{
    if numa.is_single_node() {
        assert(numa.rows().len() == numa.distances@.len());
        assert(numa.rows()[0] == seq![10u32]);
        assert(numa.distances@[0]@ == numa.rows()[0]);
    }
    if 0 <= src < numa.rows().len() {
        assert(numa.rows()[src] == numa.distances@[src]@);
    }
}

/// The best node for a GPU is one of those there are, none is closer to the node
/// of the GPU or leaves more bandwidth, and there is only one. Of a GPU that is
/// not in the cluster, and where no node is known, it is node zero.
pub proof fn law_best_node_is_closest(
    cluster: GpuCluster,
    gpu_ordinal: i32,
    node: int,
    other: int,
    i: int,
)
    requires
        cluster.is_optimal_node(gpu_ordinal, node),
        is_last_index(cluster.ordinals@, gpu_ordinal, i) || !cluster.ordinals@.contains(
            gpu_ordinal,
        ),
        0 <= other < cluster.numa.node_count,
    ensures
        cluster.is_optimal_node(gpu_ordinal, other) ==> other == node,
        !cluster.ordinals@.contains(gpu_ordinal) ==> node == 0,
        cluster.ordinals@.contains(gpu_ordinal) ==> {
            let from = cluster.infos@[i].numa_node as int;
            &&& 0 <= node < cluster.numa.node_count
            &&& cluster.numa.between(from, node) <= cluster.numa.between(from, other)
            &&& other < node ==> cluster.numa.between(from, node) < cluster.numa.between(
                from,
                other,
            )
            &&& bandwidth_percent(cluster.numa.between(from, node)) >= bandwidth_percent(
                cluster.numa.between(from, other),
            )
        },
{
    assert(cluster.ordinals@.len() == cluster.ordinals.len());
    law_position_is_the_last(cluster.ordinals@, gpu_ordinal);
    if cluster.ordinals@.contains(gpu_ordinal) {
        let p = position_of(cluster.ordinals@, gpu_ordinal)->0 as int;
        assert(is_last_index(cluster.ordinals@, gpu_ordinal, i));
        assert(p == i) by {
            if p < i {
                assert(cluster.ordinals@[i] != gpu_ordinal);
            } else if i < p {
                assert(cluster.ordinals@[p] != gpu_ordinal);
            }
        }
        let from = cluster.node_of(gpu_ordinal);
        assert(cluster.numa.between(from, node) <= cluster.numa.between(from, other));
        if is_closest(cluster.numa, from, other) {
            assert(cluster.numa.between(from, other) <= cluster.numa.between(from, node));
        }
    }
}

/// Direct access is enabled between two different GPUs that are capable of it,
/// once: not where it is active already. Nothing is left to enable where all
/// that can be is active.
pub proof fn law_access_is_enabled_once(p: Peers, i: int, j: int)
    ensures
        to_enable(p, i, j) ==> i != j && 0 <= i < p.count && 0 <= j < p.count
            && p.capable.contains((i, j)) && !p.active.contains((i, j)),
        0 <= i < p.count && 0 <= j < p.count && i != j && p.capable.contains((i, j)) ==> to_enable(
            p,
            i,
            j,
        ) || p.active.contains((i, j)),
        !to_enable((Peers { active: p.active.insert((i, j)), ..p }), i, j),
{
}

/// The topology that some lines state has a row for every line that states
/// distances and as many nodes as the longest row is long. Where no line states
/// any there is one node, at distance 10 from itself.
pub proof fn law_topology_is_what_is_stated(numa: NumaTopology, lines: Seq<Seq<char>>, i: int)
    requires
        numa.is_listed(lines),
    ensures
        distance_rows(lines).len() == 0 ==> numa.node_count == 1 && numa.between(0, 0) == 10,
        distance_rows(lines).len() > 0 ==> {
            &&& numa.rows() == distance_rows(lines)
            &&& 0 <= i < numa.rows().len() ==> numa.rows()[i].len() <= numa.node_count
            &&& exists|k: int|
                0 <= k < numa.rows().len() && (#[trigger] numa.rows()[k]).len() == numa.node_count
        },
{
    if distance_rows(lines).len() == 0 {
        law_unknown_nodes_are_far(numa, 0, 0);
    } else {
        law_some_row_is_widest(numa.rows());
        if 0 <= i < numa.rows().len() {
            law_no_row_is_wider(numa.rows(), i);
        }
    }
}

/// A line that begins with `node`, has `distances:` in it and ends in no white
/// space states the numbers behind the colon, where there is no colon before.
pub proof fn law_distances_stand_behind_the_colon(between: Seq<char>, rest: Seq<char>)
    requires
        !between.contains(':'),
        rest.len() > 0,
        !scan::is_space(rest.last()),
    ensures
        stated_distances("node"@ + between + "distances:"@ + rest) == scan::numbers(
            scan::words(rest),
        ),
{
    reveal_strlit("node");
    reveal_strlit("distances:");
    let line = "node"@ + between + "distances:"@ + rest;
    scan::law_trimmed_text_stays(line);
    scan::law_parts_are_found(Seq::empty(), "node"@, between + "distances:"@ + rest);
    assert("node"@ + (between + "distances:"@ + rest) =~= line);
    scan::law_parts_are_found("node"@ + between, "distances:"@, rest);
    let head = "node"@ + between + "distances"@;
    reveal_strlit("distances");
    assert(head + seq![':'] + rest =~= line);
    assert(!head.contains(':')) by {
        if head.contains(':') {
            let k = choose|k: int| 0 <= k < head.len() && head[k] == ':';
            if 4 <= k < 4 + between.len() {
                assert(between[k - 4] == ':');
            }
        }
    }
    scan::law_rest_begins_behind_the_first(head, ':', rest);
}

/// A file that holds a number, with white space around it or none, states that
/// node, and node zero where the number is negative.
pub proof fn law_a_file_states_its_number(n: nat, before: char, behind: char)
    requires
        scan::is_space(before),
        scan::is_space(behind),
        n <= isize::MAX,
    ensures
        stated_node(text::decimal(n as int)) == Some(n as usize),
        stated_node(text::decimal(n as int).push(behind)) == Some(n as usize),
        stated_node(seq![before] + text::decimal(n as int)) == Some(n as usize),
        stated_node((seq!['-'] + text::decimal(n as int)).push(behind)) == Some(0usize),
{
    let d = text::decimal(n as int);
    text::law_digits_have_the_value(n, 10);
    assert forall|i: int| 0 <= i < d.len() implies !scan::is_space(#[trigger] d[i]) by {
        assert(text::worth_of(d[i]) < 10);
    }
    scan::law_numbers_are_read_as_written(n);
    scan::law_trimmed_text_stays(d);
    scan::law_white_space_is_trimmed(d, before, behind);
    let minus = seq!['-'] + d;
    assert(minus.last() == d.last());
    scan::law_trimmed_text_stays(minus);
    scan::law_white_space_is_trimmed(minus, before, behind);
}

/// What is known of a GPU is what was answered about it: its node is that of the
/// first file that states one, and node zero where none does.
pub proof fn law_gpu_is_what_was_answered(info: GpuInfo, device_id: i32, a: DeviceAnswers)
    requires
        info.says(device_id, a),
    ensures
        info.device_id == device_id,
        info.total_vram == a.total_vram,
        info.free_vram == a.free_vram,
        info.compute_capability == a.compute_capability,
        info.sm_count == a.sm_count,
        info.pci_bus_id == a.pci_bus_id,
        info.pci_device_id == a.pci_device_id,
        info.concurrent_kernels <==> a.concurrent_kernels != 0,
        first_stated_node(a.numa_node_files@) matches Some(node) ==> info.numa_node == node,
        first_stated_node(a.numa_node_files@) is None ==> info.numa_node == 0,
        !a.name@.contains(0u8) ==> info.name@.len() == 0,
        a.name@.contains(0u8) ==> info.name@ == lossy_text(until_zero(a.name@)),
{
    if a.name@.contains(0u8) {
        let k = choose|k: int| 0 <= k < a.name@.len() && a.name@[k] == 0u8;
        assert(a.name@[k] == 0);
    }
}

/// The files that may state the node of a GPU are its own: no other GPU has any
/// of them.
pub proof fn law_every_gpu_has_files_of_its_own(a: i32, b: i32)
    requires
        a != b,
    ensures
        numa_node_path_texts(a).0 != numa_node_path_texts(b).0,
        numa_node_path_texts(a).1 != numa_node_path_texts(b).1,
{
    let p = "/sys/bus/pci/devices/0000:"@;
    let q = ":00.0/numa_node"@;
    let x = numa_node_path_texts(a);
    let y = numa_node_path_texts(b);
    let ha = text::hex2(a as u32 as nat);
    let hb = text::hex2(b as u32 as nat);
    text::law_numbers_are_written_by_their_digits(a as u32 as nat);
    text::law_numbers_are_written_by_their_digits(b as u32 as nat);
    assert(x.0.subrange(p.len() as int, x.0.len() - q.len()) =~= ha);
    assert(y.0.subrange(p.len() as int, y.0.len() - q.len()) =~= hb);
    assert(a as u32 != b as u32) by (bit_vector)
        requires
            a != b,
    ;
    let r = "/sys/class/drm/card"@;
    let t = "/device/numa_node"@;
    text::law_decimals_are_distinct(a as int, b as int);
    assert(x.1.subrange(r.len() as int, x.1.len() - t.len()) =~= text::decimal(a as int));
    assert(y.1.subrange(r.len() as int, y.1.len() - t.len()) =~= text::decimal(b as int));
}

/// The bandwidth between a host node and a GPU is that of the distance from the
/// host node to the node of the GPU, and that of nodes that are far apart where
/// the GPU is not in the cluster.
pub proof fn law_bandwidth_goes_by_the_node_of_the_gpu(
    cluster: GpuCluster,
    gpu_ordinal: i32,
    dram_numa_node: int,
    i: int,
)
    ensures
        is_last_index(cluster.ordinals@, gpu_ordinal, i) ==> cluster.factor(
            gpu_ordinal,
            dram_numa_node,
        ) == bandwidth_percent(
            cluster.numa.between(dram_numa_node, cluster.infos@[i].numa_node as int),
        ),
        !cluster.ordinals@.contains(gpu_ordinal) ==> cluster.factor(gpu_ordinal, dram_numa_node)
            == bandwidth_percent(30),
{
    assert(cluster.ordinals@.len() == cluster.ordinals.len());
    law_position_is_the_last(cluster.ordinals@, gpu_ordinal);
    if is_last_index(cluster.ordinals@, gpu_ordinal, i) {
        assert(cluster.ordinals@.contains(cluster.ordinals@[i]));
        let p = position_of(cluster.ordinals@, gpu_ordinal)->0 as int;
        if p < i {
            assert(cluster.ordinals@[i] != gpu_ordinal);
        } else if i < p {
            assert(cluster.ordinals@[p] != gpu_ordinal);
        }
    }
}

/// Direct access is active once the driver has enabled it or says that it was
/// enabled before, for that pair alone. Any other answer changes nothing, and
/// none changes what the GPUs are capable of.
pub proof fn law_enabled_access_is_active(p: Peers, src: int, dst: int, code: i32, i: int, j: int)
    ensures
        p.recorded(src, dst, code).count == p.count,
        p.recorded(src, dst, code).capable == p.capable,
        p.recorded(src, dst, code).active.contains((i, j)) <==> p.active.contains((i, j)) || (i
            == src && j == dst && (code == 0 || code == 704)),
{
}

} // verus!
