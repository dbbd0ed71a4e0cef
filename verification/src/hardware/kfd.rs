//! AMD devices as the kernel lists them.
use crate::hardware::targets::GfxTarget;
use crate::order;
use crate::order::Ranked;
use crate::text;
use vstd::prelude::*;

verus! {

/// What drives a device.
#[derive(Clone, Copy, Debug, PartialEq, Eq, Structural)]
pub enum Backend {
    Cuda,
    Rocm,
    Vulkan,
    Metal,
}

/// What a device is.
#[derive(Clone, Copy, Debug, PartialEq, Eq, Structural)]
pub enum DeviceType {
    Gpu,
    IntegratedGpu,
}

/// A device that work can be given to.
#[derive(Debug)]
pub struct Device {
    pub index: usize,
    pub name: String,
    pub description: String,
    pub backend: Backend,
    pub device_type: DeviceType,
    pub memory_total: u64,
    pub memory_free: u64,
    pub compute_capability: u32,
    pub target: Option<GfxTarget>,
}

/// An entry of the kernel's list of nodes.
#[derive(Debug)]
pub struct TopologyEntry {
    /// The entry's name, where it is text.
    pub name: Option<String>,
    pub is_directory: bool,
}

/// The name of a node, ordered letter by letter and not by number.
#[derive(Debug)]
pub struct NodeName(pub String);

impl Ranked for NodeName {
    open spec fn ranks(self, other: Self) -> bool {
        text::text_le(self.0@, other.0@)
    }

    proof fn total(a: Self, b: Self) {
        text::lemma_text_le_total(a.0@, b.0@);
    }

    proof fn transitive(a: Self, b: Self, c: Self) {
        text::lemma_text_le_transitive(a.0@, b.0@, c.0@);
    }

    fn not_after(&self, other: &Self) -> (r: bool) {
        text::not_after(self.0.as_str(), other.0.as_str())
    }
}

/// The entry is a node: a directory whose name is a number.
pub open spec fn is_node(entry: TopologyEntry) -> bool {
    match entry.name {
        Some(name) => entry.is_directory && text::all_digits(name@),
        None => false,
    }
}

/// The names of the entries that are nodes.
pub open spec fn node_names(entries: Seq<TopologyEntry>) -> Seq<NodeName>
    decreases entries.len(),
{
    if entries.len() == 0 {
        Seq::empty()
    } else {
        let names = node_names(entries.drop_last());
        if is_node(entries.last()) {
            names.push(NodeName(entries.last().name->0))
        } else {
            names
        }
    }
}

fn digits(name: &str) -> (r: bool)
    ensures
        r == text::all_digits(name@),
{
    let v = text::chars_of(name);
    let mut i: usize = 0;
    while i < v.len()
        invariant
            v@ == name@,
            i <= v@.len(),
            forall|k: int| 0 <= k < i ==> text::is_digit(#[trigger] v@[k]),
        decreases v@.len() - i,
    {
        let c = v[i];
        if !('0' <= c && c <= '9') {
            assert(!text::is_digit(v@[i as int]));
            return false;
        }
        i += 1;
    }
    v.len() > 0
}

/// The nodes of the kernel's list, in the order in which they are read.
pub fn select_nodes(entries: Vec<TopologyEntry>) -> (r: Vec<NodeName>)
    ensures
        r@ == order::arranged(node_names(entries@)),
{
    let mut rest = entries;
    let mut names: Vec<NodeName> = Vec::new();
    let ghost all = rest@;
    let ghost mut done: int = 0;
    assert(all.take(0) =~= Seq::empty());
    assert(all.skip(0) =~= all);
    while rest.len() > 0
        invariant
            0 <= done <= all.len(),
            rest@ == all.skip(done),
            names@ == node_names(all.take(done)),
        decreases rest@.len(),
    {
        let entry = rest.remove(0);
        proof {
            assert(entry == all[done]);
            assert(all.skip(done).remove(0) =~= all.skip(done + 1));
            assert(all.take(done + 1).drop_last() =~= all.take(done));
            done = done + 1;
        }
        if entry.is_directory {
            match entry.name {
                Some(name) => {
                    if digits(name.as_str()) {
                        names.push(NodeName(name));
                    }
                },
                None => {},
            }
        }
    }
    assert(all.take(done) =~= all);
    order::sorted(names)
}

/// What is read of a node.
#[derive(Clone, Copy, Debug, PartialEq, Eq, Structural)]
pub struct NodeProperties {
    pub simd_count: i64,
    pub version: i64,
}

impl NodeProperties {
    /// The properties after a line. A line counts where it holds a key and a number and nothing else.
    pub open spec fn with_line(self, line: Seq<char>) -> NodeProperties {
        let fields = text::words(line);
        if fields.len() != 2 {
            self
        } else {
            match text::read_i64(fields[1]) {
                Some(value) => if fields[0] == "simd_count"@ {
                    NodeProperties { simd_count: value as i64, ..self }
                } else if fields[0] == "gfx_target_version"@ {
                    NodeProperties { version: value as i64, ..self }
                } else {
                    self
                },
                None => self,
            }
        }
    }

    /// The properties after a line.
    fn read_line(self, line: &str) -> (r: Self)
        ensures
            r == self.with_line(line@),
    {
        let fields = text::words_of(line);
        if fields.len() != 2 {
            return self;
        }
        match text::parse_i64(fields[1].as_str()) {
            Some(value) => {
                if text::same(fields[0].as_str(), "simd_count") {
                    NodeProperties { simd_count: value, ..self }
                } else if text::same(fields[0].as_str(), "gfx_target_version") {
                    NodeProperties { version: value, ..self }
                } else {
                    self
                }
            },
            None => self,
        }
    }

    /// The architecture of a node that can compute.
    pub open spec fn found(self) -> Option<GfxTarget> {
        if self.simd_count == 0 || self.version == 0 {
            None
        } else {
            GfxTarget::of_version(self.version)
        }
    }
}

/// Where the line that begins at `at` ends.
pub open spec fn line_end(s: Seq<char>, at: int) -> int
    decreases s.len() - at,
{
    if 0 <= at < s.len() && s[at] != '\n' {
        line_end(s, at + 1)
    } else {
        at
    }
}

/// The line that begins at `at` ends within the text and not before it begins.
pub proof fn lemma_line_end(s: Seq<char>, at: int)
    requires
        0 <= at <= s.len(),
    ensures
        at <= line_end(s, at) <= s.len(),
    decreases s.len() - at,
{
    if at < s.len() && s[at] != '\n' {
        lemma_line_end(s, at + 1);
    }
}

/// The properties after the lines from `at` on. What is said last counts.
pub open spec fn read_from(s: Seq<char>, at: int, known: NodeProperties) -> NodeProperties
    decreases s.len() + 1 - at,
{
    if 0 <= at < s.len() {
        proof {
            lemma_line_end(s, at);
        }
        let end = line_end(s, at);
        read_from(s, end + 1, known.with_line(s.subrange(at, end)))
    } else {
        known
    }
}

/// What a node's text says of it.
pub open spec fn properties_of(s: Seq<char>) -> NodeProperties {
    read_from(s, 0, NodeProperties { simd_count: 0, version: 0 })
}

/// What a node's text says of it.
pub fn read_properties(s: &str) -> (r: NodeProperties)
    ensures
        r == properties_of(s@),
{
    let v = text::chars_of(s);
    let mut known = NodeProperties { simd_count: 0, version: 0 };
    let mut at: usize = 0;
    while at < v.len()
        invariant
            v@ == s@,
            at <= v@.len(),
            properties_of(s@) == read_from(s@, at as int, known),
        decreases v@.len() - at,
    {
        let mut end: usize = at;
        while end < v.len() && v[end] != '\n'
            invariant
                v@ == s@,
                at <= end <= v@.len(),
                line_end(s@, at as int) == line_end(s@, end as int),
            decreases v@.len() - end,
        {
            end += 1;
        }
        let line = text::string_of_range(&v, at, end);
        known = known.read_line(line.as_str());
        if end == v.len() {
            assert(read_from(s@, end + 1, known) == known);
            return known;
        }
        at = end + 1;
    }
    known
}

/// The architectures of the nodes that can compute, given the text of each node. A node without a
/// text is passed over.
pub open spec fn targets_of(texts: Seq<Option<String>>) -> Seq<GfxTarget>
    decreases texts.len(),
{
    if texts.len() == 0 {
        Seq::empty()
    } else {
        let known = targets_of(texts.drop_last());
        match texts.last() {
            Some(s) => match properties_of(s@).found() {
                Some(target) => known.push(target),
                None => known,
            },
            None => known,
        }
    }
}

/// The device is the `index`-th, of this architecture.
pub open spec fn shows(device: Device, index: int, target: GfxTarget) -> bool {
    &&& device.index == index
    &&& device.name@ == "ROCm"@ + text::decimal(index as nat)
    &&& device.description@ == target.label()
    &&& device.backend == Backend::Rocm
    &&& device.device_type == if target.is_integrated() {
        DeviceType::IntegratedGpu
    } else {
        DeviceType::Gpu
    }
    &&& device.memory_total == 0
    &&& device.memory_free == 0
    &&& device.compute_capability == 0
    &&& device.target == Some(target)
}

/// The devices of the nodes, given the text of each node in the order in which they are read.
pub fn probe(texts: &Vec<Option<String>>) -> (r: Vec<Device>)
    ensures
        r@.len() == targets_of(texts@).len(),
        forall|i: int| 0 <= i < r@.len() ==> shows(#[trigger] r@[i], i, targets_of(texts@)[i]),
{
    let mut devices: Vec<Device> = Vec::new();
    let mut i: usize = 0;
    assert(texts@.take(0) =~= Seq::empty());
    while i < texts.len()
        invariant
            i <= texts@.len(),
            devices@.len() == targets_of(texts@.take(i as int)).len(),
            forall|k: int|
                0 <= k < devices@.len() ==> shows(
                    #[trigger] devices@[k],
                    k,
                    targets_of(texts@.take(i as int))[k],
                ),
        decreases texts@.len() - i,
    {
        proof {
            assert(texts@.take(i + 1).drop_last() =~= texts@.take(i as int));
            assert(texts@.take(i + 1).last() == texts@[i as int]);
        }
        match &texts[i] {
            Some(s) => {
                let properties = read_properties(s.as_str());
                if properties.simd_count != 0 && properties.version != 0 {
                    match GfxTarget::from_version(properties.version) {
                        Some(target) => {
                            let index: usize = devices.len();
                            let number = text::decimal_text(index);
                            devices.push(
                                Device {
                                    index,
                                    name: text::joined("ROCm", number.as_str()),
                                    description: target.name().to_owned(),
                                    backend: Backend::Rocm,
                                    device_type: if target.integrated() {
                                        DeviceType::IntegratedGpu
                                    } else {
                                        DeviceType::Gpu
                                    },
                                    memory_total: 0,
                                    memory_free: 0,
                                    compute_capability: 0,
                                    target: Some(target),
                                },
                            );
                        },
                        None => {},
                    }
                }
            },
            None => {},
        }
        i += 1;
    }
    assert(texts@.take(i as int) =~= texts@);
    devices
}

/// Nodes are read in the order of their names, and none is lost.
pub proof fn lemma_nodes_in_order(entries: Seq<TopologyEntry>)
    ensures
        order::in_order(order::arranged(node_names(entries))),
        order::arranged(node_names(entries)).to_multiset() == node_names(entries).to_multiset(),
{
    order::lemma_arranged(node_names(entries));
}

/// No two devices have one name.
pub proof fn lemma_device_names_differ(devices: Seq<Device>, targets: Seq<GfxTarget>, i: int, j: int)
    requires
        devices.len() == targets.len(),
        forall|k: int| 0 <= k < devices.len() ==> shows(#[trigger] devices[k], k, targets[k]),
        0 <= i < devices.len(),
        0 <= j < devices.len(),
        i != j,
    ensures
        devices[i].name@ != devices[j].name@,
{
    text::lemma_decimal_injective(i as nat, j as nat);
    let a = text::decimal(i as nat);
    let b = text::decimal(j as nat);
    assert(shows(devices[i], i, targets[i]) && shows(devices[j], j, targets[j]));
    assert(("ROCm"@ + a).skip("ROCm"@.len() as int) =~= a);
    assert(("ROCm"@ + b).skip("ROCm"@.len() as int) =~= b);
}

/// One entry more: it is a node where it is a directory whose name is digits alone.
pub proof fn lemma_a_topology_entry_more(entries: Seq<TopologyEntry>, entry: TopologyEntry)
    ensures
        entry.is_directory && (entry.name matches Some(name) && name@.len() > 0 && forall|i: int|
            0 <= i < name@.len() ==> '0' <= #[trigger] name@[i] <= '9') ==> node_names(
            entries.push(entry),
        ) == node_names(entries).push(NodeName(entry.name->0)),
        !entry.is_directory || entry.name is None || entry.name->0@.len() == 0 || (exists|i: int|
            0 <= i < entry.name->0@.len() && !('0' <= #[trigger] entry.name->0@[i] <= '9'))
            ==> node_names(entries.push(entry)) == node_names(entries),
{
    assert(entries.push(entry).drop_last() =~= entries);
}

/// A line that holds a key and a number sets what the key names, and nothing else; any other line
/// sets nothing.
pub proof fn lemma_what_a_line_sets(known: NodeProperties, line: Seq<char>, key: Seq<char>, value: i64)
    ensures
        text::words(line) == seq![key, text::decimal(value as nat)] && value >= 0 ==> (key
            == "simd_count"@ ==> known.with_line(line).simd_count == value && known.with_line(
            line,
        ).version == known.version) && (key == "gfx_target_version"@ ==> known.with_line(
            line,
        ).version == value && known.with_line(line).simd_count == known.simd_count) && (key
            != "simd_count"@ && key != "gfx_target_version"@ ==> known.with_line(line) == known),
        text::words(line).len() != 2 ==> known.with_line(line) == known,
{
    text::lemma_decimal_reads_back(value as nat, 0);
    reveal_strlit("simd_count");
    reveal_strlit("gfx_target_version");
    assert("simd_count"@.len() == 10 && "gfx_target_version"@.len() == 18);
    if text::words(line) == seq![key, text::decimal(value as nat)] {
        assert(text::words(line)[0] == key);
        assert(text::words(line)[1] == text::decimal(value as nat));
    }
}

proof fn lemma_line_end_at(s: Seq<char>, at: int, end: int)
    requires
        0 <= at <= end <= s.len(),
        end < s.len() ==> s[end] == '\n',
        forall|i: int| at <= i < end ==> #[trigger] s[i] != '\n',
    ensures
        line_end(s, at) == end,
    decreases end - at,
{
    if at < end {
        assert(s[at] != '\n');
        lemma_line_end_at(s, at + 1, end);
    }
}

/// A text is read line by line, each line once: what the first line sets holds for the rest.
pub proof fn lemma_line_by_line(s: Seq<char>, at: int, end: int, known: NodeProperties)
    requires
        0 <= at <= end <= s.len(),
        at < s.len(),
        end < s.len() ==> s[end] == '\n',
        forall|i: int| at <= i < end ==> #[trigger] s[i] != '\n',
    ensures
        end < s.len() ==> read_from(s, at, known) == read_from(
            s,
            end + 1,
            known.with_line(s.subrange(at, end)),
        ),
        end == s.len() ==> read_from(s, at, known) == known.with_line(s.subrange(at, end)),
{
    lemma_line_end_at(s, at, end);
    let read = known.with_line(s.subrange(at, end));
    assert(read_from(s, at, known) == read_from(s, end + 1, read));
    if end == s.len() {
        assert(read_from(s, end + 1, read) == read);
    }
}

/// One node more: it is a device where its text tells of units that compute and of an architecture
/// that is known, and that architecture is the device's.
pub proof fn lemma_a_node_more(texts: Seq<Option<String>>, node: Option<String>, target: GfxTarget)
    ensures
        node is None ==> targets_of(texts.push(node)) == targets_of(texts),
        node matches Some(s) ==> (properties_of(s@).simd_count == 0 || properties_of(s@).version
            == 0 ==> targets_of(texts.push(node)) == targets_of(texts)),
        node matches Some(s) ==> (properties_of(s@).simd_count != 0 && properties_of(s@).version
            == target.number() ==> targets_of(texts.push(node)) == targets_of(texts).push(target)),
        node matches Some(s) ==> ((forall|other: GfxTarget| #[trigger]
            other.number() != properties_of(s@).version) ==> targets_of(texts.push(node))
            == targets_of(texts)),
{
    assert(texts.push(node).drop_last() =~= texts);
    if let Some(s) = node {
        let p = properties_of(s@);
        if p.version == target.number() {
            let found = choose|other: GfxTarget| #[trigger] other.number() == p.version;
            crate::hardware::targets::lemma_versions_differ(found, target);
        }
    }
}

/// What is shown of a device: its place, by which it is named, the name of its architecture, and
/// whether that is one of a processor with graphics. Its memory is not known.
pub proof fn lemma_a_device_is_shown(device: Device, index: int, target: GfxTarget)
    requires
        index >= 0,
        shows(device, index, target),
    ensures
        device.index == index,
        device.name@ == "ROCm"@ + text::decimal(index as nat),
        device.description@ == target.label(),
        device.backend is Rocm,
        device.device_type is IntegratedGpu <==> target.is_integrated(),
        device.memory_total == 0 && device.memory_free == 0 && device.compute_capability == 0,
        device.target == Some(target),
{
}

} // verus!
