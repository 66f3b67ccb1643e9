//! The patch: nodes, the wires between their ports, and where the nodes stand.

use vstd::prelude::*;

use crate::text::same_text;

verus! {

/// A 32×32 monochrome icon: one word per row, the leftmost pixel in the highest bit.
pub type Icon = [u32; 32];

/// The type of the sink that plays what reaches it.
pub open spec fn audio_output() -> Seq<char> {
    "audio_output"@
}

/// The characters of each string of a list.
pub open spec fn names(list: Seq<String>) -> Seq<Seq<char>> {
    list.map_values(|s: String| s@)
}

/// A port of a node: `(node id, port name)`.
#[derive(Debug)]
pub struct Endpoint(pub String, pub String);

impl View for Endpoint {
    type V = (Seq<char>, Seq<char>);

    open spec fn view(&self) -> (Seq<char>, Seq<char>) {
        (self.0@, self.1@)
    }
}

impl Endpoint {
    /// The id of the node.
    pub fn node(&self) -> (r: &str)
        ensures
            r@ == self@.0,
    {
        self.0.as_str()
    }

    /// The name of the port.
    pub fn port(&self) -> (r: &str)
        ensures
            r@ == self@.1,
    {
        self.1.as_str()
    }

    /// Whether this is port `port` of node `node`.
    pub fn is(&self, node: &str, port: &str) -> (r: bool)
        ensures
            r == (self@ == (node@, port@)),
    {
        same_text(self.node(), node) && same_text(self.port(), port)
    }

    /// Whether both name the same port.
    pub fn same(&self, other: &Endpoint) -> (r: bool)
        ensures
            r == (self@ == other@),
    {
        self.is(other.node(), other.port())
    }
}

impl Clone for Endpoint {
    fn clone(&self) -> (r: Self)
        ensures
            r@ == self@,
    {
        Endpoint(self.0.clone(), self.1.clone())
    }
}

/// A wire from an output port to an input port.
#[derive(Debug)]
pub struct Wire {
    pub from: Endpoint,
    pub to: Endpoint,
}

impl View for Wire {
    type V = ((Seq<char>, Seq<char>), (Seq<char>, Seq<char>));

    open spec fn view(&self) -> ((Seq<char>, Seq<char>), (Seq<char>, Seq<char>)) {
        (self.from@, self.to@)
    }
}

/// The inputs that a module type offers.
#[derive(Debug)]
pub enum Inputs {
    /// One input of each name, for one wire each.
    Fixed(Vec<String>),
    /// One input that takes any number of wires.
    Variadic(String),
}

/// The names of the inputs of a module type.
pub enum InputNames {
    Fixed(Seq<Seq<char>>),
    Variadic(Seq<char>),
}

impl View for Inputs {
    type V = InputNames;

    open spec fn view(&self) -> InputNames {
        match self {
            Inputs::Fixed(list) => InputNames::Fixed(names(list@)),
            Inputs::Variadic(name) => InputNames::Variadic(name@),
        }
    }
}

/// The ports of a module.
#[derive(Debug)]
pub struct Descriptor {
    pub inputs: Inputs,
    pub outputs: Vec<String>,
}

/// The names of the ports of a module.
pub struct PortNames {
    pub inputs: InputNames,
    pub outputs: Seq<Seq<char>>,
}

impl View for Descriptor {
    type V = PortNames;

    open spec fn view(&self) -> PortNames {
        PortNames { inputs: self.inputs@, outputs: names(self.outputs@) }
    }
}

/// A copy of a list of strings.
pub fn clone_names(list: &Vec<String>) -> (r: Vec<String>)
    ensures
        names(r@) == names(list@),
{
    let mut r: Vec<String> = Vec::new();
    let mut i: usize = 0;
    while i < list.len()
        invariant
            i <= list.len(),
            r@ == list@.take(i as int),
        decreases list.len() - i,
    {
        r.push(list[i].clone());
        i += 1;
        assert(r@ =~= list@.take(i as int));
    }
    assert(r@ =~= list@);
    r
}

impl Clone for Descriptor {
    fn clone(&self) -> (r: Self)
        ensures
            r@ == self@,
    {
        let inputs = match &self.inputs {
            Inputs::Fixed(list) => Inputs::Fixed(clone_names(list)),
            Inputs::Variadic(name) => Inputs::Variadic(name.clone()),
        };
        Descriptor { inputs, outputs: clone_names(&self.outputs) }
    }
}

/// A module of the patch.
#[derive(Debug)]
pub struct Node {
    pub id: String,
    pub ty: String,
    /// The `channels` parameter, if it is set to an integer.
    pub channels: Option<i64>,
    /// The ports that the module type has with the parameters of this node, if the type is known.
    pub desc: Option<Descriptor>,
}

/// What a node holds.
pub struct NodeModel {
    pub id: Seq<char>,
    pub ty: Seq<char>,
    pub channels: Option<i64>,
    pub desc: Option<PortNames>,
}

/// The ports of an optional descriptor.
pub open spec fn described(desc: Option<Descriptor>) -> Option<PortNames> {
    match desc {
        Some(d) => Some(d@),
        None => None,
    }
}

impl View for Node {
    type V = NodeModel;

    open spec fn view(&self) -> NodeModel {
        NodeModel {
            id: self.id@,
            ty: self.ty@,
            channels: self.channels,
            desc: described(self.desc),
        }
    }
}

/// A position for each of some ids.
pub struct Layout<P> {
    entries: Vec<(String, P)>,
}

/// The positions of a list of entries, later ones winning.
pub open spec fn entries_map<P>(entries: Seq<(String, P)>) -> Map<Seq<char>, P>
    decreases entries.len(),
{
    if entries.len() == 0 {
        Map::empty()
    } else {
        entries_map(entries.drop_last()).insert(entries.last().0@, entries.last().1)
    }
}

spec fn distinct_keys<P>(entries: Seq<(String, P)>) -> bool {
    forall|i: int, j: int|
        0 <= i < j < entries.len() ==> (#[trigger] entries[i]).0@ != (#[trigger] entries[j]).0@
}

impl<P> View for Layout<P> {
    type V = Map<Seq<char>, P>;

    closed spec fn view(&self) -> Map<Seq<char>, P> {
        entries_map(self.entries@)
    }
}

proof fn lemma_entries_map<P>(entries: Seq<(String, P)>)
    requires
        distinct_keys(entries),
    ensures
        forall|i: int|
            0 <= i < entries.len() ==> entries_map(entries).contains_key(
                (#[trigger] entries[i]).0@,
            ) && entries_map(entries)[entries[i].0@] == entries[i].1,
        forall|k: Seq<char>| #[trigger]
            entries_map(entries).contains_key(k) ==> exists|i: int|
                0 <= i < entries.len() && (#[trigger] entries[i]).0@ == k,
        entries_map(entries).dom().finite(),
        entries_map(entries).len() == entries.len(),
    decreases entries.len(),
{
    if entries.len() > 0 {
        let rest = entries.drop_last();
        let last = entries.last();
        let key = last.0@;
        assert(entries[entries.len() - 1] == last);
        assert forall|i: int, j: int| 0 <= i < j < rest.len() implies (#[trigger] rest[i]).0@ != (
        #[trigger] rest[j]).0@ by {
            assert(entries[i].0@ != entries[j].0@);
        }
        lemma_entries_map(rest);
        let m = entries_map(entries);
        assert(!entries_map(rest).contains_key(key)) by {
            if entries_map(rest).contains_key(key) {
                let i = choose|i: int| 0 <= i < rest.len() && (#[trigger] rest[i]).0@ == key;
                assert(entries[i].0@ == key);
            }
        }
        assert(m.dom() =~= entries_map(rest).dom().insert(key));
        assert forall|i: int| 0 <= i < entries.len() implies m.contains_key(
            (#[trigger] entries[i]).0@,
        ) && m[entries[i].0@] == entries[i].1 by {
            if i < rest.len() {
                assert(rest[i] == entries[i]);
                assert(entries[i].0@ != key);
            }
        }
        assert forall|k: Seq<char>| #[trigger] m.contains_key(k) implies exists|i: int|
            0 <= i < entries.len() && (#[trigger] entries[i]).0@ == k by {
            if k != key {
                assert(entries_map(rest).contains_key(k));
                let i = choose|i: int| 0 <= i < rest.len() && (#[trigger] rest[i]).0@ == k;
                assert(entries[i].0@ == k);
            }
        }
    }
}

impl<P> Layout<P> {
    /// No id has two positions.
    pub closed spec fn wf(&self) -> bool {
        distinct_keys(self.entries@)
    }

    /// No positions.
    pub fn new() -> (r: Self)
        ensures
            r.wf(),
            r@ == Map::<Seq<char>, P>::empty(),
    {
        Layout { entries: Vec::new() }
    }

    /// The number of ids that have a position.
    pub fn len(&self) -> (r: usize)
        requires
            self.wf(),
        ensures
            r == self@.len(),
    {
        proof {
            lemma_entries_map(self.entries@);
        }
        self.entries.len()
    }

    /// Whether no id has a position.
    pub fn is_empty(&self) -> (r: bool)
        requires
            self.wf(),
        ensures
            r == (self@ == Map::<Seq<char>, P>::empty()),
    {
        proof {
            lemma_entries_map(self.entries@);
            if self.entries@.len() > 0 {
                assert(self@.contains_key(self.entries@[0].0@));
            }
        }
        self.entries.len() == 0
    }

    /// Where `id` stands in the list of entries, or the length of the list.
    fn find(&self, id: &str) -> (r: usize)
        ensures
            r <= self.entries@.len(),
            r < self.entries@.len() ==> self.entries@[r as int].0@ == id@,
            r == self.entries@.len() ==> forall|i: int|
                0 <= i < self.entries@.len() ==> (#[trigger] self.entries@[i]).0@ != id@,
    {
        let mut i: usize = 0;
        while i < self.entries.len()
            invariant
                i <= self.entries@.len(),
                forall|j: int| 0 <= j < i ==> (#[trigger] self.entries@[j]).0@ != id@,
            decreases self.entries.len() - i,
        {
            if same_text(self.entries[i].0.as_str(), id) {
                return i;
            }
            i += 1;
        }
        i
    }

    /// The position of `id`, if it has one.
    pub fn get(&self, id: &str) -> (r: Option<&P>)
        requires
            self.wf(),
        ensures
            match r {
                Some(p) => self@.contains_key(id@) && self@[id@] == *p,
                None => !self@.contains_key(id@),
            },
    {
        let i: usize = self.find(id);
        proof {
            lemma_entries_map(self.entries@);
        }
        if i < self.entries.len() {
            Some(&self.entries[i].1)
        } else {
            None
        }
    }

    /// Puts `id` at `position`.
    pub fn insert(&mut self, id: String, position: P)
        requires
            old(self).wf(),
        ensures
            final(self).wf(),
            final(self)@ == old(self)@.insert(id@, position),
    {
        let i: usize = self.find(id.as_str());
        let ghost before = self.entries@;
        let ghost key = id@;
        if i < self.entries.len() {
            self.entries.set(i, (id, position));
            proof {
                let after = self.entries@;
                assert forall|a: int, b: int| 0 <= a < b < after.len() implies (
                #[trigger] after[a]).0@ != (#[trigger] after[b]).0@ by {
                    assert(after[a].0@ == before[a].0@);
                    assert(after[b].0@ == before[b].0@);
                }
                lemma_entries_map(before);
                lemma_entries_map(after);
                let m = entries_map(before).insert(key, position);
                assert forall|k: Seq<char>| entries_map(after).contains_key(k)
                    == #[trigger] m.contains_key(k) by {
                    if entries_map(after).contains_key(k) {
                        let a = choose|a: int| 0 <= a < after.len() && (#[trigger] after[a]).0@ == k;
                        assert(before[a].0@ == k);
                    }
                    if m.contains_key(k) && k != key {
                        assert(entries_map(before).contains_key(k));
                        let a = choose|a: int|
                            0 <= a < before.len() && (#[trigger] before[a]).0@ == k;
                        assert(after[a].0@ == k);
                    }
                    if k == key {
                        assert(after[i as int].0@ == k);
                    }
                }
                assert forall|k: Seq<char>| #[trigger] m.contains_key(k) implies m[k]
                    == entries_map(after)[k] by {
                    assert(entries_map(after).contains_key(k));
                    let a = choose|a: int| 0 <= a < after.len() && (#[trigger] after[a]).0@ == k;
                    assert(before[a].0@ == k);
                    if k != key {
                        assert(after[a] == before[a]);
                    } else {
                        assert(before[i as int].0@ == k);
                        assert(a == i);
                    }
                }
                assert(entries_map(after) =~= m);
            }
        } else {
            self.entries.push((id, position));
            proof {
                let after = self.entries@;
                assert(after.drop_last() =~= before);
                assert forall|a: int, b: int| 0 <= a < b < after.len() implies (
                #[trigger] after[a]).0@ != (#[trigger] after[b]).0@ by {
                    assert(after[a] == before[a]);
                    if b < before.len() {
                        assert(after[b] == before[b]);
                    }
                }
            }
        }
    }

    /// Takes all positions away.
    pub fn clear(&mut self)
        ensures
            final(self).wf(),
            final(self)@ == Map::<Seq<char>, P>::empty(),
    {
        self.entries.clear();
        assert(self.entries@ =~= Seq::empty());
    }

    /// The ids that have a position, in the order in which they got one first.
    pub closed spec fn ids(&self) -> Seq<Seq<char>> {
        Seq::new(self.entries@.len(), |i: int| self.entries@[i].0@)
    }

    /// Every id that has a position is listed once.
    pub proof fn law_ids_are_the_positioned(&self)
        requires
            self.wf(),
        ensures
            self.ids().no_duplicates(),
            self.ids().to_set() == self@.dom(),
            self.ids().len() == self@.len(),
    {
        lemma_entries_map(self.entries@);
        let ids = self.ids();
        assert forall|k: Seq<char>| ids.to_set().contains(k) == self@.dom().contains(k) by {
            if ids.contains(k) {
                let i = choose|i: int| 0 <= i < ids.len() && ids[i] == k;
                assert(self.entries@[i].0@ == k);
            }
            if self@.contains_key(k) {
                let i = choose|i: int|
                    0 <= i < self.entries@.len() && (#[trigger] self.entries@[i]).0@ == k;
                assert(ids[i] == k);
            }
        }
        assert(ids.to_set() =~= self@.dom());
    }

    /// The `i`-th of the ids that have a position, and its position.
    pub fn entry(&self, i: usize) -> (r: (&str, &P))
        requires
            self.wf(),
            i < self@.len(),
        ensures
            r.0@ == self.ids()[i as int],
            self@.contains_key(r.0@),
            self@[r.0@] == *r.1,
    {
        proof {
            lemma_entries_map(self.entries@);
        }
        let e = &self.entries[i];
        (e.0.as_str(), &e.1)
    }
}

/// A patch: modules, the wires between them, and where the modules stand.
pub struct Patch<P> {
    pub nodes: Vec<Node>,
    pub wires: Vec<Wire>,
    pub layout: Layout<P>,
}

impl<P> Patch<P> {
    /// No id has two positions.
    pub open spec fn wf(&self) -> bool {
        self.layout.wf()
    }

    /// An empty patch.
    pub fn empty() -> (r: Self)
        ensures
            r.wf(),
            r.nodes@.len() == 0,
            r.wires@.len() == 0,
            r.layout@ == Map::<Seq<char>, P>::empty(),
    {
        Patch { nodes: Vec::new(), wires: Vec::new(), layout: Layout::new() }
    }
}

/// A type of module, with the ports that it has when no parameter is set.
#[derive(Debug)]
pub struct ModuleType {
    pub type_id: String,
    pub desc: Descriptor,
}

/// The icon of a type of module.
#[derive(Debug)]
pub struct TypeIcon {
    pub type_id: String,
    pub icon: Icon,
}

/// The module types that there are, and their icons.
pub struct Registry {
    pub sources: Vec<ModuleType>,
    pub modules: Vec<ModuleType>,
    pub icons: Vec<TypeIcon>,
    /// The icon of the `audio_output` sink.
    pub audio_output: Icon,
    /// The icon of types that are not registered.
    pub unknown: Icon,
}

/// The ports of type `ty` in `types`, if it is there.
pub open spec fn type_ports(types: Seq<ModuleType>, ty: Seq<char>) -> Option<PortNames>
    decreases types.len(),
{
    if types.len() == 0 {
        None
    } else if types[0].type_id@ == ty {
        Some(types[0].desc@)
    } else {
        type_ports(types.drop_first(), ty)
    }
}

/// The icon of type `ty` in `icons`, if it is there.
pub open spec fn type_icon(icons: Seq<TypeIcon>, ty: Seq<char>) -> Option<Icon>
    decreases icons.len(),
{
    if icons.len() == 0 {
        None
    } else if icons[0].type_id@ == ty {
        Some(icons[0].icon)
    } else {
        type_icon(icons.drop_first(), ty)
    }
}

/// A source's ports come before a module's of the same type.
pub open spec fn preferred(source: Option<PortNames>, module: Option<PortNames>) -> Option<
    PortNames,
> {
    match source {
        Some(d) => Some(d),
        None => module,
    }
}

/// The ports of a node whose type is registered as `source`, as `module`, or not at all.
pub fn prefer_source(source: Option<Descriptor>, module: Option<Descriptor>) -> (r: Option<
    Descriptor,
>)
    ensures
        described(r) == preferred(described(source), described(module)),
{
    match source {
        Some(d) => Some(d),
        None => module,
    }
}

fn find_ports(types: &Vec<ModuleType>, ty: &str) -> (r: Option<Descriptor>)
    ensures
        described(r) == type_ports(types@, ty@),
{
    let mut i: usize = 0;
    assert(types@.skip(0) =~= types@);
    while i < types.len()
        invariant
            i <= types.len(),
            type_ports(types@, ty@) == type_ports(types@.skip(i as int), ty@),
        decreases types.len() - i,
    {
        if same_text(types[i].type_id.as_str(), ty) {
            return Some(types[i].desc.clone());
        }
        assert(types@.skip(i as int).drop_first() =~= types@.skip(i + 1));
        i += 1;
    }
    None
}

impl Registry {
    /// The ports that a node of type `ty` has when no parameter is set.
    pub open spec fn ports_of(&self, ty: Seq<char>) -> Option<PortNames> {
        preferred(type_ports(self.sources@, ty), type_ports(self.modules@, ty))
    }

    /// The ports that a node of type `ty` has when no parameter is set; `None` if the type is not
    /// registered.
    pub fn describe(&self, ty: &str) -> (r: Option<Descriptor>)
        ensures
            described(r) == self.ports_of(ty@),
    {
        prefer_source(find_ports(&self.sources, ty), find_ports(&self.modules, ty))
    }

    /// The icon of a node of type `ty`: that of the sink, that of the registered type, or the one
    /// for types that are not registered.
    pub open spec fn icon_of(&self, ty: Seq<char>) -> Icon {
        if ty == audio_output() {
            self.audio_output
        } else {
            match type_icon(self.icons@, ty) {
                Some(icon) => icon,
                None => self.unknown,
            }
        }
    }

    /// The icon of a node of type `ty`: that of the sink, that of the registered type, or the one
    /// for types that are not registered.
    pub fn icon_for(&self, ty: &str) -> (r: Icon)
        ensures
            r == self.icon_of(ty@),
    {
        if same_text(ty, "audio_output") {
            return self.audio_output;
        }
        let mut i: usize = 0;
        assert(self.icons@.skip(0) =~= self.icons@);
        while i < self.icons.len()
            invariant
                i <= self.icons.len(),
                ty@ != audio_output(),
                type_icon(self.icons@, ty@) == type_icon(self.icons@.skip(i as int), ty@),
            decreases self.icons.len() - i,
        {
            if same_text(self.icons[i].type_id.as_str(), ty) {
                return self.icons[i].icon;
            }
            assert(self.icons@.skip(i as int).drop_first() =~= self.icons@.skip(i + 1));
            i += 1;
        }
        self.unknown
    }
}

} // verus!
