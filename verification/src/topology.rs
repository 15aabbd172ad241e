//! The network topology: named nodes with their neighbour lists, and path search.

use vstd::prelude::*;

use crate::graph::{
    bfs_before, searched_names_are_nodes, edge, is_first_shortest, is_path, is_shortest, lemma_bfs_extend,
    lemma_bfs_siblings, lemma_bfs_transitive, lemma_path_extend, lemma_path_prefix, lemma_shortest_prefix,
    lemma_trivial_path, path_between, reachable, step_ok,
};
use crate::node::{NetworkNode, Server, Switch};
use crate::text::{
    parse_u16, parse_u16_spec, pieces, split_all, split_limited, split_on, str_views, string_views,
    trim, trim_str, words, words_of,
};

verus! {

/// The names held by a vector of strings.
pub open spec fn names_view(v: Seq<String>) -> Seq<Seq<char>> {
    v.map_values(|s: String| s@)
}

/// What a node of the topology is, as plain values.
pub enum NodeView {
    Server { name: Seq<char>, ip: Seq<char>, weights: Seq<u16> },
    Switch { name: Seq<char>, ip: Seq<char>, number_of_ports: u16, weights: Seq<u16> },
}

/// A node of the topology and its neighbour list, as plain values.
pub struct EntryView {
    pub node: NodeView,
    pub adjacent: Seq<Seq<char>>,
}

/// A server or a switch.
#[derive(Debug)]
pub enum TopologyNode {
    Server(Server),
    Switch(Switch),
}

impl TopologyNode {
    pub open spec fn key(&self) -> Seq<char> {
        match self {
            TopologyNode::Server(s) => s.name@,
            TopologyNode::Switch(s) => s.name@,
        }
    }

    /// The node as plain values.
    pub open spec fn view(&self) -> NodeView {
        match self {
            TopologyNode::Server(s) => NodeView::Server {
                name: s.name@,
                ip: s.ip@,
                weights: s.weights@,
            },
            TopologyNode::Switch(s) => NodeView::Switch {
                name: s.name@,
                ip: s.ip@,
                number_of_ports: s.number_of_ports,
                weights: s.weights@,
            },
        }
    }
}

impl NetworkNode for TopologyNode {
    open spec fn node_name(&self) -> Seq<char> {
        self.key()
    }

    open spec fn node_ip(&self) -> Seq<char> {
        match self {
            TopologyNode::Server(s) => s.ip@,
            TopologyNode::Switch(s) => s.ip@,
        }
    }

    open spec fn node_weights(&self) -> Seq<u16> {
        match self {
            TopologyNode::Server(s) => s.weights@,
            TopologyNode::Switch(s) => s.weights@,
        }
    }

    fn name(&self) -> (res: String) {
        match self {
            TopologyNode::Server(s) => s.name(),
            TopologyNode::Switch(s) => s.name(),
        }
    }

    fn ip(&self) -> (res: String) {
        match self {
            TopologyNode::Server(s) => s.ip(),
            TopologyNode::Switch(s) => s.ip(),
        }
    }

    fn weights(&self) -> (res: Vec<u16>) {
        match self {
            TopologyNode::Server(s) => s.weights(),
            TopologyNode::Switch(s) => s.weights(),
        }
    }
}

/// A node together with the names of its neighbours.
#[derive(Debug)]
pub struct TopologyEntry {
    pub node: TopologyNode,
    pub adjacent: Vec<String>,
}

impl TopologyEntry {
    pub open spec fn view(&self) -> EntryView {
        EntryView { node: self.node.view(), adjacent: names_view(self.adjacent@) }
    }
}

/// No two entries carry the same node name.
pub open spec fn keys_unique(es: Seq<TopologyEntry>) -> bool {
    forall|i: int, j: int|
        0 <= i < es.len() && 0 <= j < es.len() && i != j ==> es[i].node.key() != es[j].node.key()
}

/// Some entry carries the name `k`.
pub open spec fn has_key(es: Seq<TopologyEntry>, k: Seq<char>) -> bool {
    exists|i: int| 0 <= i < es.len() && #[trigger] es[i].node.key() == k
}

/// The entries as a map from node name to node and neighbours.
pub open spec fn entries_view(es: Seq<TopologyEntry>) -> Map<Seq<char>, EntryView> {
    Map::new(
        |k: Seq<char>| has_key(es, k),
        |k: Seq<char>|
            es[choose|i: int| 0 <= i < es.len() && #[trigger] es[i].node.key() == k].view(),
    )
}

/// The node names of the entries, in order.
pub open spec fn names_of_entries(es: Seq<TopologyEntry>) -> Seq<Seq<char>> {
    es.map_values(|e: TopologyEntry| e.node.key())
}

/// Every name that occurs in the entries, as a node or as a neighbour.
pub open spec fn all_names(es: Seq<TopologyEntry>) -> Seq<Seq<char>>
    decreases es.len(),
{
    if es.len() == 0 {
        seq![]
    } else {
        all_names(es.drop_last()) + seq![es.last().node.key()] + names_view(es.last().adjacent@)
    }
}

/// The view maps the name of entry `i` to that entry.
pub proof fn lemma_entries_view_at(es: Seq<TopologyEntry>, i: int)
    requires
        keys_unique(es),
        0 <= i < es.len(),
    ensures
        entries_view(es).contains_key(es[i].node.key()),
        entries_view(es)[es[i].node.key()] == es[i].view(),
{
    let k = es[i].node.key();
    assert(has_key(es, k));
    let j = choose|j: int| 0 <= j < es.len() && #[trigger] es[j].node.key() == k;
    assert(j == i);
}

/// The name of entry `i` and its neighbours' names occur among all names.
pub proof fn lemma_all_names(es: Seq<TopologyEntry>, i: int)
    requires
        0 <= i < es.len(),
    ensures
        all_names(es).contains(es[i].node.key()),
        forall|t: int|
            0 <= t < es[i].adjacent@.len() ==> all_names(es).contains(
                #[trigger] es[i].adjacent@[t]@,
            ),
    decreases es.len(),
{
    let rest = es.drop_last();
    let a = all_names(rest);
    let b = seq![es.last().node.key()];
    let c = names_view(es.last().adjacent@);
    assert(all_names(es) == a + b + c);
    if i == es.len() - 1 {
        assert((a + b + c)[a.len() as int] == es[i].node.key());
        assert forall|t: int| 0 <= t < es[i].adjacent@.len() implies all_names(es).contains(
            #[trigger] es[i].adjacent@[t]@,
        ) by {
            assert((a + b + c)[a.len() + 1 + t] == c[t]);
        }
    } else {
        lemma_all_names(rest, i);
        assert(rest[i] == es[i]);
        let k = choose|k: int| 0 <= k < a.len() && a[k] == es[i].node.key();
        assert((a + b + c)[k] == a[k]);
        assert forall|t: int| 0 <= t < es[i].adjacent@.len() implies all_names(es).contains(
            #[trigger] es[i].adjacent@[t]@,
        ) by {
            assert(a.contains(rest[i].adjacent@[t]@));
            let k2 = choose|k2: int| 0 <= k2 < a.len() && a[k2] == es[i].adjacent@[t]@;
            assert((a + b + c)[k2] == a[k2]);
        }
    }
}

/// Why a topology description was refused.
#[derive(Debug, Clone, PartialEq, Eq)]
pub enum TopologyError {
    MissingNodeName,
    MissingNodeIp,
    MissingNodeType,
    MissingPortCount,
    InvalidPortCount,
    InvalidWeight(String),
    MissingField,
}

/// Why a topology description was refused, as plain values.
pub enum TopologyErrorView {
    MissingNodeName,
    MissingNodeIp,
    MissingNodeType,
    MissingPortCount,
    InvalidPortCount,
    InvalidWeight(Seq<char>),
    MissingField,
}

impl TopologyError {
    pub open spec fn view(&self) -> TopologyErrorView {
        match self {
            TopologyError::MissingNodeName => TopologyErrorView::MissingNodeName,
            TopologyError::MissingNodeIp => TopologyErrorView::MissingNodeIp,
            TopologyError::MissingNodeType => TopologyErrorView::MissingNodeType,
            TopologyError::MissingPortCount => TopologyErrorView::MissingPortCount,
            TopologyError::InvalidPortCount => TopologyErrorView::InvalidPortCount,
            TopologyError::InvalidWeight(t) => TopologyErrorView::InvalidWeight(t@),
            TopologyError::MissingField => TopologyErrorView::MissingField,
        }
    }
}

/// The name of a node.
pub open spec fn node_view_name(n: NodeView) -> Seq<char> {
    match n {
        NodeView::Server { name, .. } => name,
        NodeView::Switch { name, .. } => name,
    }
}

/// The word that marks a switch line.
pub open spec fn switch_word() -> Seq<char> {
    seq!['s', 'w', 'i', 't', 'c', 'h']
}

/// The weights the tokens denote, or the first token that is no 16-bit number.
pub open spec fn parse_weights_spec(tokens: Seq<Seq<char>>) -> Result<Seq<u16>, Seq<char>>
    decreases tokens.len(),
{
    if tokens.len() == 0 {
        Ok(Seq::<u16>::empty())
    } else {
        match parse_weights_spec(tokens.drop_last()) {
            Err(t) => Err(t),
            Ok(ws) => match parse_u16_spec(tokens.last()) {
                Some(v) => Ok(ws.push(v)),
                None => Err(tokens.last()),
            },
        }
    }
}

/// Field `i` of a line, trimmed; empty when the line has fewer fields.
pub open spec fn field(parts: Seq<Seq<char>>, i: int) -> Seq<char> {
    if i < parts.len() {
        trim(parts[i])
    } else {
        Seq::<char>::empty()
    }
}

/// The node a non-empty, trimmed line describes. A line has comma-separated fields: name,
/// address, type, then for a switch its port count, weights and neighbours, and for any
/// other type its weights and neighbours. Weights and neighbours are separated by
/// whitespace; a switch line's sixth field takes the rest of the line.
pub open spec fn parse_entry_spec(line: Seq<char>) -> Result<EntryView, TopologyErrorView> {
    let parts = pieces(line, ',', 6);
    let name = field(parts, 0);
    let ip = field(parts, 1);
    let ty = field(parts, 2);
    if name.len() == 0 {
        Err(TopologyErrorView::MissingNodeName)
    } else if ip.len() == 0 {
        Err(TopologyErrorView::MissingNodeIp)
    } else if ty.len() == 0 {
        Err(TopologyErrorView::MissingNodeType)
    } else if ty == switch_word() {
        let pc = field(parts, 3);
        if pc.len() == 0 {
            Err(TopologyErrorView::MissingPortCount)
        } else {
            match parse_u16_spec(pc) {
                None => Err(TopologyErrorView::InvalidPortCount),
                Some(ports) => match parse_weights_spec(words(field(parts, 4))) {
                    Err(t) => Err(TopologyErrorView::InvalidWeight(t)),
                    Ok(ws) => Ok(
                        EntryView {
                            node: NodeView::Switch { name, ip, number_of_ports: ports, weights: ws },
                            adjacent: words(field(parts, 5)),
                        },
                    ),
                },
            }
        }
    } else {
        match parse_weights_spec(words(field(parts, 3))) {
            Err(t) => Err(TopologyErrorView::InvalidWeight(t)),
            Ok(ws) => Ok(
                EntryView {
                    node: NodeView::Server { name, ip, weights: ws },
                    adjacent: words(field(parts, 4)),
                },
            ),
        }
    }
}

/// The pieces of `s` between single spaces, each trimmed.
pub open spec fn spaced_tokens(s: Seq<char>) -> Seq<Seq<char>> {
    split_all(s, ' ').map_values(|t: Seq<char>| trim(t))
}

/// The node a non-empty, trimmed line of the first-generation format describes. Its
/// fields are separated by commas, and fields past those used are ignored: name, address,
/// type, then for a switch its port count, its weights and its neighbours, and for any
/// other type its weights and the one switch it hangs off. Weights are separated by single
/// spaces; a switch's neighbours are the pieces of its sixth field between single spaces,
/// as they stand. Fields are checked in the order they are used, and a missing one is an
/// error.
pub open spec fn first_generation_entry_spec(line: Seq<char>) -> Result<EntryView, TopologyErrorView> {
    let parts = split_all(line, ',');
    if parts.len() < 3 {
        Err(TopologyErrorView::MissingField)
    } else {
        let name = trim(parts[0]);
        let ip = trim(parts[1]);
        if trim(parts[2]) == switch_word() {
            if parts.len() < 4 {
                Err(TopologyErrorView::MissingField)
            } else {
                match parse_u16_spec(trim(parts[3])) {
                    None => Err(TopologyErrorView::InvalidPortCount),
                    Some(ports) => if parts.len() < 5 {
                        Err(TopologyErrorView::MissingField)
                    } else {
                        match parse_weights_spec(spaced_tokens(trim(parts[4]))) {
                            Err(t) => Err(TopologyErrorView::InvalidWeight(t)),
                            Ok(ws) => if parts.len() < 6 {
                                Err(TopologyErrorView::MissingField)
                            } else {
                                Ok(
                                    EntryView {
                                        node: NodeView::Switch { name, ip, number_of_ports: ports, weights: ws },
                                        adjacent: split_all(parts[5], ' '),
                                    },
                                )
                            },
                        }
                    },
                }
            }
        } else {
            if parts.len() < 4 {
                Err(TopologyErrorView::MissingField)
            } else {
                match parse_weights_spec(spaced_tokens(trim(parts[3]))) {
                    Err(t) => Err(TopologyErrorView::InvalidWeight(t)),
                    Ok(ws) => if parts.len() < 5 {
                        Err(TopologyErrorView::MissingField)
                    } else {
                        Ok(
                            EntryView {
                                node: NodeView::Server { name, ip, weights: ws },
                                adjacent: seq![trim(parts[4])],
                            },
                        )
                    },
                }
            }
        }
    }
}

/// The node a non-empty, trimmed line describes, in the first-generation format or in the
/// current one.
pub open spec fn entry_spec(first_generation: bool, line: Seq<char>) -> Result<EntryView, TopologyErrorView> {
    if first_generation {
        first_generation_entry_spec(line)
    } else {
        parse_entry_spec(line)
    }
}

/// The topology after one more line: blank lines change nothing, any other line adds or
/// replaces the node it describes.
pub open spec fn apply_line(first_generation: bool, m: Map<Seq<char>, EntryView>, line: Seq<char>) -> Result<
    Map<Seq<char>, EntryView>,
    TopologyErrorView,
> {
    let t = trim(line);
    if t.len() == 0 {
        Ok(m)
    } else {
        match entry_spec(first_generation, t) {
            Ok(e) => Ok(m.insert(node_view_name(e.node), e)),
            Err(x) => Err(x),
        }
    }
}

/// The topology that a sequence of lines describes, or the error of the first bad line.
pub open spec fn lines_spec(first_generation: bool, lines: Seq<Seq<char>>) -> Result<
    Map<Seq<char>, EntryView>,
    TopologyErrorView,
>
    decreases lines.len(),
{
    if lines.len() == 0 {
        Ok(Map::<Seq<char>, EntryView>::empty())
    } else {
        match lines_spec(first_generation, lines.drop_last()) {
            Err(x) => Err(x),
            Ok(m) => apply_line(first_generation, m, lines.last()),
        }
    }
}

/// The topology a description text gives, line by line. The lines are the pieces between
/// newline characters; a carriage return before a newline is whitespace and is trimmed
/// away with the rest of the line's surrounding whitespace.
pub open spec fn description_spec(text: Seq<char>) -> Result<
    Map<Seq<char>, EntryView>,
    TopologyErrorView,
> {
    lines_spec(false, split_all(text, '\n'))
}

/// The topology a description text in the first-generation format gives, line by line,
/// the lines taken as in [`description_spec`].
pub open spec fn first_generation_description_spec(text: Seq<char>) -> Result<
    Map<Seq<char>, EntryView>,
    TopologyErrorView,
> {
    lines_spec(true, split_all(text, '\n'))
}

/// Whether `t` is the word that marks a switch.
fn is_switch_word(t: &str) -> (res: bool)
    ensures
        res == (t@ == switch_word()),
{
    let cs = crate::text::chars_of(t);
    if cs.len() != 6 {
        return false;
    }
    let res = cs[0] == 's' && cs[1] == 'w' && cs[2] == 'i' && cs[3] == 't' && cs[4] == 'c' && cs[5]
        == 'h';
    assert(res ==> t@ =~= switch_word());
    res
}

/// Field `i` of a line, trimmed; empty when the line has fewer fields.
fn field_of<'a>(parts: &Vec<&'a str>, i: usize) -> (res: &'a str)
    ensures
        res@ == field(str_views(parts@), i as int),
{
    if i < parts.len() {
        trim_str(parts[i])
    } else {
        let e = "";
        proof {
            reveal_strlit("");
        }
        assert(e@ =~= Seq::<char>::empty());
        e
    }
}

/// A set of named network nodes, each with the names of its neighbours.
#[derive(Debug)]
pub struct Topology {
    entries: Vec<TopologyEntry>,
}

impl Topology {
    #[verifier::type_invariant]
    spec fn well_formed(self) -> bool {
        keys_unique(self.entries@)
    }

    /// The nodes by name, each with its neighbour list.
    pub closed spec fn view(&self) -> Map<Seq<char>, EntryView> {
        entries_view(self.entries@)
    }

    /// The neighbour lists by node name.
    pub open spec fn graph(&self) -> Map<Seq<char>, Seq<Seq<char>>> {
        Map::new(|k: Seq<char>| self@.contains_key(k), |k: Seq<char>| self@[k].adjacent)
    }

    /// A topology without nodes.
    pub fn new() -> (res: Topology)
        ensures
            res@ == Map::<Seq<char>, EntryView>::empty(),
    {
        let res = Topology { entries: Vec::new() };
        assert(res@ =~= Map::<Seq<char>, EntryView>::empty());
        res
    }

    /// The position of the entry named `name`, if there is one.
    fn find(&self, name: &String) -> (res: Option<usize>)
        ensures
            match res {
                Some(i) => i < self.entries@.len() && self.entries@[i as int].node.key() == name@
                    && self@[name@] == self.entries@[i as int].view(),
                None => !self@.contains_key(name@),
            },
    {
        proof {
            use_type_invariant(self);
        }
        let mut i: usize = 0;
        while i < self.entries.len()
            invariant
                i <= self.entries@.len(),
                keys_unique(self.entries@),
                forall|j: int| 0 <= j < i ==> self.entries@[j].node.key() != name@,
            decreases self.entries@.len() - i,
        {
            let found = match &self.entries[i].node {
                TopologyNode::Server(s) => s.name == *name,
                TopologyNode::Switch(s) => s.name == *name,
            };
            if found {
                proof {
                    lemma_entries_view_at(self.entries@, i as int);
                }
                return Some(i);
            }
            i = i + 1;
        }
        None
    }

    /// Puts `entry` under its node's name, replacing any node of that name.
    fn insert_entry(&mut self, entry: TopologyEntry)
        ensures
            final(self)@ == old(self)@.insert(entry.node.key(), entry.view()),
    {
        proof {
            use_type_invariant(&*self);
        }
        let ghost old_es = self.entries@;
        let ghost k = entry.node.key();
        let name = entry.node.name();
        let pos = self.find(&name);
        let mut es_exec: Vec<TopologyEntry> = Vec::new();
        std::mem::swap(&mut es_exec, &mut self.entries);
        match pos {
            Some(i) => {
                es_exec.set(i, entry);
            },
            None => {
                es_exec.push(entry);
            },
        }
        let ghost es = es_exec@;
        assert(keys_unique(es));
        assert forall|key: Seq<char>| #[trigger] entries_view(es).contains_key(key)
            == entries_view(old_es).insert(k, entry.view()).contains_key(key) by {
            if has_key(es, key) {
                let j = choose|j: int| 0 <= j < es.len() && #[trigger] es[j].node.key() == key;
                if key != k {
                    assert(old_es[j] == es[j]);
                    assert(has_key(old_es, key));
                }
            }
            if has_key(old_es, key) && key != k {
                let j = choose|j: int| 0 <= j < old_es.len() && #[trigger] old_es[j].node.key() == key;
                assert(old_es[j] == es[j]);
                assert(has_key(es, key));
            }
            if key == k {
                let j = match pos { Some(i) => i as int, None => old_es.len() as int };
                assert(es[j].node.key() == k);
            }
        }
        assert forall|key: Seq<char>| #[trigger] entries_view(es).contains_key(key) implies
            entries_view(es)[key] == entries_view(old_es).insert(k, entry.view())[key] by {
            let j = choose|j: int| 0 <= j < es.len() && #[trigger] es[j].node.key() == key;
            lemma_entries_view_at(es, j);
            if key != k {
                assert(old_es[j] == es[j]);
                lemma_entries_view_at(old_es, j);
            }
        }
        assert(entries_view(es) =~= entries_view(old_es).insert(k, entry.view()));
        self.entries = es_exec;
    }

    /// A shortest path of node names from `start` to `end`, found breadth first, or `None`
    /// when `end` cannot be reached from `start`. Of several shortest paths it is the first
    /// in breadth-first order: where two part, the one going on to the neighbour listed
    /// first. Each name taken from the search queue is looked up as a node, so those names
    /// must be nodes.
    pub fn dfs(&self, start: &str, end: &str) -> (res: Option<Vec<String>>)
        requires
            searched_names_are_nodes(self.graph(), start@, end@),
        ensures
            match res {
                Some(p) => is_shortest(self.graph(), names_view(p@), start@, end@) && is_first_shortest(
                    self.graph(),
                    names_view(p@),
                    start@,
                ),
                None => !reachable(self.graph(), start@, end@),
            },
    {
        proof {
            use_type_invariant(self);
        }
        let ghost g = self.graph();
        let ghost s = start@;
        let ghost e = end@;
        let ghost universe = all_names(self.entries@);
        let start_s = start.to_owned();
        let end_s = end.to_owned();
        let mut visited: Vec<String> = Vec::new();
        visited.push(start_s.clone());
        let mut first: Vec<String> = Vec::new();
        first.push(start_s.clone());
        let mut queue: Vec<Vec<String>> = Vec::new();
        queue.push(first);
        proof {
            lemma_trivial_path(g, s);
            assert(names_view(first@) =~= seq![s]);
            assert(path_views(queue@) =~= seq![seq![s]]);
            assert(names_view(visited@) =~= seq![s]);
            assert(names_view(visited@)[0] == s);
            assert(path_views(queue@)[0].last() == s);
            assert(is_path(g, seq![s]));
            assert forall|q: Seq<Seq<char>>| #[trigger] is_shortest(g, q, s, seq![s].last()) implies q
                == seq![s] || bfs_before(g, seq![s], q) by {
                assert(q.len() <= 1);
                assert(q =~= seq![s]);
            }
            assert(is_first_shortest(g, seq![s], s));
            assert forall|q: Seq<Seq<char>>| #[trigger] is_shortest(g, q, s, e) implies seq![s].len() < q.len()
                || q == seq![s] || bfs_before(g, seq![s], q) by {
                if q.len() <= 1 {
                    assert(q =~= seq![s]);
                }
            }
            assert(g.contains_key(seq![s].last()));
            let i0 = choose|i: int| 0 <= i < self.entries@.len() && #[trigger] self.entries@[i].node.key() == s;
            lemma_all_names(self.entries@, i0);
            assert(reachable(g, s, s)) by {
                assert(path_between(g, seq![s], s, s));
            }
            assert(queue_first(g, s, path_views(queue@)));
        }
        while queue.len() > 0
            invariant
                g == self.graph(),
                universe == all_names(self.entries@),
                keys_unique(self.entries@),
                s == start@,
                e == end@,
                start_s@ == s,
                end_s@ == e,
                searched_names_are_nodes(g, s, e),
                queue_shortest(g, s, path_views(queue@)),
                queue_layered(path_views(queue@)),
                queue_first(g, s, path_views(queue@)),
                queue_ordered(g, path_views(queue@)),
                queue_parents_before(g, path_views(queue@)),
                forall|k: int|
                    0 <= k < queue@.len() ==> names_view(visited@).contains(
                        #[trigger] path_views(queue@)[k].last(),
                    ),
                names_view(visited@).contains(s),
                settled(g, names_view(visited@), path_views(queue@)),
                names_view(visited@).contains(e) ==> in_queue(path_views(queue@), e),
                forall|u: Seq<char>| #[trigger]
                    names_view(visited@).contains(u) ==> reachable(g, s, u),
                names_view(visited@).no_duplicates(),
                forall|u: Seq<char>| #[trigger]
                    names_view(visited@).contains(u) ==> universe.contains(u),
                visited@.len() <= universe.len(),
            decreases universe.len() - visited@.len(), queue@.len(),
        {
            let ghost qh = path_views(queue@);
            let ghost vh = names_view(visited@);
            let path = queue.remove(0);
            let ghost p = names_view(path@);
            proof {
                assert(path_views(queue@) =~= qh.drop_first());
                assert(p == qh[0]);
                assert(is_shortest(g, qh[0], s, qh[0].last()));
                lemma_front_searched(g, s, e, vh, qh);
                assert(g.contains_key(p.last()));
            }
            let last = path.len() - 1;
            let name = path[last].clone();
            assert(name@ == p.last());
            let idx = match self.find(&name) {
                Some(i) => i,
                None => {
                    return None;
                },
            };
            if name == end_s {
                proof {
                    assert(name@ == e);
                    assert(is_shortest(g, p, s, p.last()));
                    assert(is_first_shortest(g, qh[0], s));
                }
                return Some(path);
            }
            let adjacent = &self.entries[idx].adjacent;
            let ghost a = names_view(adjacent@);
            proof {
                assert(a == g[p.last()]);
                assert(p.last() != e);
                if vh.contains(e) {
                    let k = choose|k: int| 0 <= k < qh.len() && #[trigger] qh[k].last() == e;
                    assert(k != 0);
                    assert(path_views(queue@)[k - 1] == qh[k]);
                }
                assert(path_views(queue@).len() == qh.len() - 1);
            }
            let mut j: usize = 0;
            while j < adjacent.len()
                invariant
                    g == self.graph(),
                    universe == all_names(self.entries@),
                    keys_unique(self.entries@),
                    start_s@ == s,
                    end_s@ == e,
                    searched_names_are_nodes(g, s, e),
                    idx < self.entries@.len(),
                    adjacent == self.entries@[idx as int].adjacent,
                    a == names_view(adjacent@),
                    a == g[p.last()],
                    g.contains_key(p.last()),
                    qh.len() > 0,
                    p == qh[0],
                    p == names_view(path@),
                    p.last() != e,
                    vh.contains(s),
                    settled(g, vh, qh),
                    queue_shortest(g, s, qh),
                    queue_layered(qh),
                    queue_first(g, s, qh),
                    queue_ordered(g, qh),
                    queue_parents_before(g, qh),
                    queue_first(g, s, path_views(queue@)),
                    queue_ordered(g, path_views(queue@)),
                    forall|k: int|
                        qh.len() - 1 <= k < path_views(queue@).len() ==> (#[trigger] path_views(queue@)[k]).drop_last()
                            == p && exists|t: int| 0 <= t < j && #[trigger] a[t] == path_views(queue@)[k].last(),
                    forall|k: int| 0 <= k < qh.len() ==> vh.contains(#[trigger] qh[k].last()),
                    vh.contains(e) ==> in_queue(path_views(queue@), e),
                    j <= adjacent@.len(),
                    path_views(queue@).len() >= qh.len() - 1,
                    forall|k: int|
                        0 <= k < qh.len() - 1 ==> #[trigger] path_views(queue@)[k] == qh[k + 1],
                    forall|k: int|
                        qh.len() - 1 <= k < path_views(queue@).len() ==> {
                            &&& (#[trigger] path_views(queue@)[k]).len() == p.len() + 1
                            &&& is_shortest(g, path_views(queue@)[k], s, path_views(queue@)[k].last())
                            &&& !vh.contains(path_views(queue@)[k].last())
                            &&& names_view(visited@).contains(path_views(queue@)[k].last())
                        },
                    forall|u: Seq<char>| #[trigger] vh.contains(u) ==> names_view(visited@).contains(u),
                    forall|u: Seq<char>|
                        #[trigger] names_view(visited@).contains(u) && !vh.contains(u) ==> exists|k: int|
                            qh.len() - 1 <= k < path_views(queue@).len()
                                && #[trigger] path_views(queue@)[k].last() == u,
                    forall|t: int| 0 <= t < j ==> names_view(visited@).contains(#[trigger] a[t]),
                    names_view(visited@).no_duplicates(),
                    forall|u: Seq<char>| #[trigger]
                        names_view(visited@).contains(u) ==> universe.contains(u),
                    forall|u: Seq<char>| #[trigger]
                        names_view(visited@).contains(u) ==> reachable(g, s, u),
                    visited@.len() <= universe.len(),
                    visited@.len() - vh.len() == path_views(queue@).len() - (qh.len() - 1),
                decreases adjacent@.len() - j,
            {
                let nb = &adjacent[j];
                let ghost w = nb@;
                let ghost vis0 = names_view(visited@);
                let ghost q0 = path_views(queue@);
                assert(a[j as int] == w);
                if !contains_name(&visited, nb) {
                    proof {
                        assert(g[p.last()].contains(w));
                        assert(!vh.contains(w));
                        lemma_new_path_shortest(g, s, vh, qh, w);
                        lemma_new_path_first(g, s, vh, qh, w);
                        assert forall|t: int| 0 <= t < j implies #[trigger] g[qh[0].last()][t] != w by {
                            assert(vis0.contains(a[t]));
                        }
                        assert forall|k: int|
                            qh.len() - 1 <= k < q0.len() implies (#[trigger] q0[k]).len() == qh[0].len() + 1
                                && q0[k].drop_last() == qh[0] && exists|t: int|
                                0 <= t < j && #[trigger] g[qh[0].last()][t] == q0[k].last() by {
                            let t = choose|t: int| 0 <= t < j && #[trigger] a[t] == q0[k].last();
                            assert(g[qh[0].last()][t] == q0[k].last());
                        }
                        lemma_new_path_last(g, qh, q0, j as int, w);
                        lemma_all_names(self.entries@, idx as int);
                        assert(universe.contains(w));
                    }
                    visited.push(nb.clone());
                    let mut np = clone_names(&path);
                    let nbc = nb.clone();
                    np.push(nbc);
                    proof {
                        assert(np@ == path@.push(nbc));
                        assert(names_view(np@)[p.len() as int] == w);
                        assert(names_view(np@) =~= p.push(w));
                    }
                    queue.push(np);
                    proof {
                        let vis1 = names_view(visited@);
                        let q1 = path_views(queue@);
                        assert(vis1 =~= vis0.push(w));
                        assert(names_view(np@) =~= p.push(w));
                        assert(q1 =~= q0.push(p.push(w)));
                        assert(q1[q1.len() - 1].last() == w);
                        assert forall|u: Seq<char>| #[trigger] vis1.contains(u) implies vis0.contains(u)
                            || u == w by {
                            let i = choose|i: int| 0 <= i < vis1.len() && vis1[i] == u;
                            if i < vis0.len() {
                                assert(vis0[i] == u);
                            }
                        }
                        assert forall|u: Seq<char>| #[trigger] vis0.contains(u) implies vis1.contains(u) by {
                            let i = choose|i: int| 0 <= i < vis0.len() && vis0[i] == u;
                            assert(vis1[i] == u);
                        }
                        assert(vis1[vis0.len() as int] == w);
                        assert(vis1.contains(w));
                        assert(vis1.no_duplicates()) by {
                            assert forall|i1: int, i2: int|
                                0 <= i1 < vis1.len() && 0 <= i2 < vis1.len() && i1 != i2 implies vis1[i1]
                                != vis1[i2] by {
                                if i1 < vis0.len() && i2 < vis0.len() {
                                } else if i1 < vis0.len() {
                                    assert(vis0.contains(vis0[i1]));
                                } else if i2 < vis0.len() {
                                    assert(vis0.contains(vis0[i2]));
                                }
                            }
                        }
                        assert(reachable(g, s, w)) by {
                            assert(path_between(g, p.push(w), s, w));
                        }
                        lemma_distinct_len(vis1, universe);
                        assert forall|u: Seq<char>|
                            #[trigger] vis1.contains(u) && !vh.contains(u) implies exists|k: int|
                                qh.len() - 1 <= k < q1.len() && #[trigger] q1[k].last() == u by {
                            if u == w {
                                assert(q1[q1.len() - 1].last() == u);
                            } else {
                                assert(vis0.contains(u));
                                let k = choose|k: int|
                                    qh.len() - 1 <= k < q0.len() && #[trigger] q0[k].last() == u;
                                assert(q1[k] == q0[k]);
                            }
                        }
                        if vh.contains(e) {
                            let k = choose|k: int| 0 <= k < q0.len() && #[trigger] q0[k].last() == e;
                            assert(q1[k] == q0[k]);
                        }
                        assert forall|k: int|
                            qh.len() - 1 <= k < q1.len() implies {
                                &&& (#[trigger] q1[k]).len() == p.len() + 1
                                &&& is_shortest(g, q1[k], s, q1[k].last())
                                &&& !vh.contains(q1[k].last())
                                &&& vis1.contains(q1[k].last())
                            } by {
                            if k < q0.len() {
                                assert(q1[k] == q0[k]);
                            }
                        }
                        assert(queue_first(g, s, q1)) by {
                            assert forall|k: int| 0 <= k < q1.len() implies is_first_shortest(g, #[trigger] q1[k], s) by {
                                if k < q0.len() {
                                    assert(q1[k] == q0[k]);
                                }
                            }
                        }
                        assert(queue_ordered(g, q1)) by {
                            assert forall|k1: int, k2: int|
                                0 <= k1 < k2 < q1.len() && q1[k1].len() == q1[k2].len() implies bfs_before(
                                g,
                                #[trigger] q1[k1],
                                #[trigger] q1[k2],
                            ) by {
                                assert(q1[k1] == q0[k1]);
                                if k2 < q0.len() {
                                    assert(q1[k2] == q0[k2]);
                                } else {
                                    assert(q1[k2] == p.push(w));
                                }
                            }
                        }
                        assert forall|k: int|
                            qh.len() - 1 <= k < q1.len() implies (#[trigger] q1[k]).drop_last() == p && exists|t: int|
                                0 <= t < j + 1 && #[trigger] a[t] == q1[k].last() by {
                            if k < q0.len() {
                                assert(q1[k] == q0[k]);
                                let t = choose|t: int| 0 <= t < j && #[trigger] a[t] == q0[k].last();
                                assert(a[t] == q1[k].last());
                            } else {
                                assert(q1[k] == p.push(w));
                                assert(p.push(w).drop_last() =~= p);
                                assert(a[j as int] == q1[k].last());
                            }
                        }
                    }
                } else {
                    assert(names_view(visited@).contains(w));
                    assert forall|k: int|
                        qh.len() - 1 <= k < q0.len() implies (#[trigger] q0[k]).drop_last() == p && exists|t: int|
                            0 <= t < j + 1 && #[trigger] a[t] == q0[k].last() by {
                        let t = choose|t: int| 0 <= t < j && #[trigger] a[t] == q0[k].last();
                        assert(a[t] == q0[k].last());
                    }
                }
                j = j + 1;
            }
            proof {
                let vis1 = names_view(visited@);
                let q1 = path_views(queue@);
                assert forall|u: Seq<char>| #[trigger] vis1.contains(u) && !in_queue(q1, u) implies g.contains_key(u)
                    && forall|w: Seq<char>| #[trigger] g[u].contains(w) ==> vis1.contains(w) by {
                    if vh.contains(u) {
                        if u == p.last() {
                            assert forall|w: Seq<char>| #[trigger] g[u].contains(w) implies vis1.contains(w) by {
                                let t = choose|t: int| 0 <= t < a.len() && a[t] == w;
                                assert(vis1.contains(a[t]));
                            }
                        } else {
                            if in_queue(qh, u) {
                                let k = choose|k: int| 0 <= k < qh.len() && #[trigger] qh[k].last() == u;
                                assert(k != 0);
                                assert(q1[k - 1] == qh[k]);
                            }
                            assert forall|w: Seq<char>| #[trigger] g[u].contains(w) implies vis1.contains(w) by {
                                assert(vh.contains(w));
                            }
                        }
                    } else {
                        let k = choose|k: int| qh.len() - 1 <= k < q1.len() && #[trigger] q1[k].last() == u;
                    }
                }
                assert forall|k: int| 0 <= k < q1.len() implies is_shortest(g, #[trigger] q1[k], s, q1[k].last()) by {
                    if k < qh.len() - 1 {
                        assert(q1[k] == qh[k + 1]);
                    }
                }
                assert forall|k1: int, k2: int|
                    0 <= k1 <= k2 < q1.len() implies #[trigger] q1[k1].len() <= #[trigger] q1[k2].len() by {
                    if k2 < qh.len() - 1 {
                        assert(q1[k1] == qh[k1 + 1]);
                        assert(q1[k2] == qh[k2 + 1]);
                    } else if k1 < qh.len() - 1 {
                        assert(q1[k1] == qh[k1 + 1]);
                        assert(qh[k1 + 1].len() <= qh[qh.len() - 1].len());
                    }
                }
                if q1.len() > 0 {
                    if qh.len() > 1 {
                        assert(q1[0] == qh[1]);
                        assert(qh[0].len() <= qh[1].len());
                        if q1.len() - 1 < qh.len() - 1 {
                            assert(q1[q1.len() - 1] == qh[q1.len() as int]);
                            assert(qh[q1.len() as int].len() <= qh[qh.len() - 1].len());
                        }
                    }
                }
                assert forall|k: int| 0 <= k < q1.len() implies vis1.contains(#[trigger] q1[k].last()) by {
                    if k < qh.len() - 1 {
                        assert(q1[k] == qh[k + 1]);
                        assert(vh.contains(qh[k + 1].last()));
                    }
                }
                lemma_parents_before_after(g, qh, q1);
            }
        }
        proof {
            let vis1 = names_view(visited@);
            let q1 = path_views(queue@);
            assert(q1 =~= Seq::<Seq<Seq<char>>>::empty());
            if reachable(g, s, e) {
                let q = choose|q: Seq<Seq<char>>| #[trigger] path_between(g, q, s, e);
                lemma_closed_walk(g, s, vis1, q);
            }
        }
        None
    }

    /// The 16-bit weights listed, whitespace-separated, in `segment`, or the first token
    /// that is no such number.
    pub fn parse_weights(segment: &str) -> (res: Result<Vec<u16>, String>)
        ensures
            match res {
                Ok(v) => parse_weights_spec(words(segment@)) == Ok::<Seq<u16>, Seq<char>>(v@),
                Err(t) => parse_weights_spec(words(segment@)) == Err::<Seq<u16>, Seq<char>>(t@),
            },
    {
        let tokens = words_of(segment);
        let ghost tv = string_views(tokens@);
        let mut out: Vec<u16> = Vec::new();
        let mut i: usize = 0;
        assert(tv.take(0) =~= Seq::<Seq<char>>::empty());
        while i < tokens.len()
            invariant
                tv == string_views(tokens@),
                tv == words(segment@),
                i <= tokens@.len(),
                parse_weights_spec(tv.take(i as int)) == Ok::<Seq<u16>, Seq<char>>(out@),
            decreases tokens@.len() - i,
        {
            assert(tv.take(i + 1).drop_last() =~= tv.take(i as int));
            assert(tv.take(i + 1).last() == tokens@[i as int]@);
            match parse_u16(tokens[i].as_str()) {
                Some(v) => {
                    out.push(v);
                },
                None => {
                    proof {
                        lemma_weights_error_stays(tv, i as int + 1);
                    }
                    return Err(tokens[i].clone());
                },
            }
            i = i + 1;
        }
        assert(tv.take(tokens@.len() as int) =~= tv);
        Ok(out)
    }

    /// The neighbour names listed, whitespace-separated, in `segment`.
    pub fn parse_adjacent(segment: &str) -> (res: Vec<String>)
        ensures
            string_views(res@) == words(segment@),
    {
        words_of(segment)
    }

    /// The 16-bit weights listed in `segment` between single spaces, each piece trimmed, or
    /// the first trimmed piece that is no such number.
    fn parse_spaced_weights(segment: &str) -> (res: Result<Vec<u16>, String>)
        ensures
            match res {
                Ok(v) => parse_weights_spec(spaced_tokens(segment@)) == Ok::<Seq<u16>, Seq<char>>(v@),
                Err(t) => parse_weights_spec(spaced_tokens(segment@)) == Err::<Seq<u16>, Seq<char>>(t@),
            },
    {
        let pieces = split_on(segment, ' ');
        let ghost tv = spaced_tokens(segment@);
        let mut out: Vec<u16> = Vec::new();
        let mut i: usize = 0;
        assert(tv.take(0) =~= Seq::<Seq<char>>::empty());
        while i < pieces.len()
            invariant
                str_views(pieces@) == split_all(segment@, ' '),
                tv == spaced_tokens(segment@),
                tv.len() == pieces@.len(),
                i <= pieces@.len(),
                parse_weights_spec(tv.take(i as int)) == Ok::<Seq<u16>, Seq<char>>(out@),
            decreases pieces@.len() - i,
        {
            assert(tv.take(i + 1).drop_last() =~= tv.take(i as int));
            let token = trim_str(pieces[i]);
            assert(str_views(pieces@)[i as int] == pieces@[i as int]@);
            assert(tv.take(i + 1).last() == token@);
            match parse_u16(token) {
                Some(v) => {
                    out.push(v);
                },
                None => {
                    proof {
                        lemma_weights_error_stays(tv, i as int + 1);
                    }
                    return Err(token.to_owned());
                },
            }
            i = i + 1;
        }
        assert(tv.take(pieces@.len() as int) =~= tv);
        Ok(out)
    }

    /// The pieces of `segment` between single spaces, as they stand.
    fn spaced_names(segment: &str) -> (res: Vec<String>)
        ensures
            names_view(res@) == split_all(segment@, ' '),
    {
        let pieces = split_on(segment, ' ');
        let mut out: Vec<String> = Vec::new();
        for i in 0..pieces.len()
            invariant
                names_view(out@) == str_views(pieces@).take(i as int),
        {
            let ghost before = out@;
            let piece = pieces[i].to_owned();
            assert(piece@ == str_views(pieces@)[i as int]);
            out.push(piece);
            assert(out@ == before.push(piece));
            assert(names_view(out@) =~= names_view(before).push(piece@));
            assert(names_view(out@) =~= str_views(pieces@).take(i + 1));
        }
        assert(str_views(pieces@).take(pieces@.len() as int) =~= str_views(pieces@));
        out
    }

    /// The entry a non-empty, trimmed line of the first-generation format describes.
    fn parse_first_generation_entry(line: &str) -> (res: Result<TopologyEntry, TopologyError>)
        ensures
            match res {
                Ok(e) => first_generation_entry_spec(line@) == Ok::<EntryView, TopologyErrorView>(e.view())
                    && e.node.key() == node_view_name(e.view().node),
                Err(x) => first_generation_entry_spec(line@) == Err::<EntryView, TopologyErrorView>(x.view()),
            },
    {
        let parts = split_on(line, ',');
        let ghost pv = str_views(parts@);
        if parts.len() < 3 {
            return Err(TopologyError::MissingField);
        }
        assert(pv[0] == parts@[0]@ && pv[1] == parts@[1]@ && pv[2] == parts@[2]@);
        let name = trim_str(parts[0]);
        let ip = trim_str(parts[1]);
        let ty = trim_str(parts[2]);
        if is_switch_word(ty) {
            if parts.len() < 4 {
                return Err(TopologyError::MissingField);
            }
            assert(pv[3] == parts@[3]@);
            let ports = match parse_u16(trim_str(parts[3])) {
                Some(p) => p,
                None => {
                    return Err(TopologyError::InvalidPortCount);
                },
            };
            if parts.len() < 5 {
                return Err(TopologyError::MissingField);
            }
            assert(pv[4] == parts@[4]@);
            let weights = match Self::parse_spaced_weights(trim_str(parts[4])) {
                Ok(w) => w,
                Err(t) => {
                    return Err(TopologyError::InvalidWeight(t));
                },
            };
            if parts.len() < 6 {
                return Err(TopologyError::MissingField);
            }
            assert(pv[5] == parts@[5]@);
            let adjacent = Self::spaced_names(parts[5]);
            let sw = Switch::new(name, ip, ports, weights);
            Ok(TopologyEntry { node: TopologyNode::Switch(sw), adjacent })
        } else {
            if parts.len() < 4 {
                return Err(TopologyError::MissingField);
            }
            assert(pv[3] == parts@[3]@);
            let weights = match Self::parse_spaced_weights(trim_str(parts[3])) {
                Ok(w) => w,
                Err(t) => {
                    return Err(TopologyError::InvalidWeight(t));
                },
            };
            if parts.len() < 5 {
                return Err(TopologyError::MissingField);
            }
            assert(pv[4] == parts@[4]@);
            let switch_name = trim_str(parts[4]).to_owned();
            let mut adjacent: Vec<String> = Vec::new();
            adjacent.push(switch_name);
            assert(names_view(adjacent@) =~= seq![trim(pv[4])]);
            let sv = Server::new(name, ip, weights);
            Ok(TopologyEntry { node: TopologyNode::Server(sv), adjacent })
        }
    }

    /// The entry a non-empty, trimmed line describes.
    fn parse_entry(line: &str) -> (res: Result<TopologyEntry, TopologyError>)
        ensures
            match res {
                Ok(e) => parse_entry_spec(line@) == Ok::<EntryView, TopologyErrorView>(e.view())
                    && e.node.key() == node_view_name(e.view().node),
                Err(x) => parse_entry_spec(line@) == Err::<EntryView, TopologyErrorView>(x.view()),
            },
    {
        let parts = split_limited(line, ',', 6);
        let name = field_of(&parts, 0);
        let ip = field_of(&parts, 1);
        let ty = field_of(&parts, 2);
        if name.unicode_len() == 0 {
            return Err(TopologyError::MissingNodeName);
        }
        if ip.unicode_len() == 0 {
            return Err(TopologyError::MissingNodeIp);
        }
        if ty.unicode_len() == 0 {
            return Err(TopologyError::MissingNodeType);
        }
        if is_switch_word(ty) {
            let pc = field_of(&parts, 3);
            if pc.unicode_len() == 0 {
                return Err(TopologyError::MissingPortCount);
            }
            let ports = match parse_u16(pc) {
                Some(p) => p,
                None => {
                    return Err(TopologyError::InvalidPortCount);
                },
            };
            let weights = match Self::parse_weights(field_of(&parts, 4)) {
                Ok(w) => w,
                Err(t) => {
                    return Err(TopologyError::InvalidWeight(t));
                },
            };
            let adjacent = Self::parse_adjacent(field_of(&parts, 5));
            let sw = Switch::new(name, ip, ports, weights);
            Ok(TopologyEntry { node: TopologyNode::Switch(sw), adjacent })
        } else {
            let weights = match Self::parse_weights(field_of(&parts, 3)) {
                Ok(w) => w,
                Err(t) => {
                    return Err(TopologyError::InvalidWeight(t));
                },
            };
            let adjacent = Self::parse_adjacent(field_of(&parts, 4));
            let sv = Server::new(name, ip, weights);
            Ok(TopologyEntry { node: TopologyNode::Server(sv), adjacent })
        }
    }

    /// The topology a description text gives, or the error of its first bad line.
    pub fn from_description(text: &str) -> (res: Result<Topology, TopologyError>)
        ensures
            match res {
                Ok(t) => description_spec(text@) == Ok::<
                    Map<Seq<char>, EntryView>,
                    TopologyErrorView,
                >(t@),
                Err(x) => description_spec(text@) == Err::<
                    Map<Seq<char>, EntryView>,
                    TopologyErrorView,
                >(x.view()),
            },
    {
        Self::parse_lines(text, false)
    }

    /// The topology a description text in the first-generation format gives, or the error
    /// of its first bad line.
    pub fn from_first_generation_description(text: &str) -> (res: Result<Topology, TopologyError>)
        ensures
            match res {
                Ok(t) => first_generation_description_spec(text@) == Ok::<
                    Map<Seq<char>, EntryView>,
                    TopologyErrorView,
                >(t@),
                Err(x) => first_generation_description_spec(text@) == Err::<
                    Map<Seq<char>, EntryView>,
                    TopologyErrorView,
                >(x.view()),
            },
    {
        Self::parse_lines(text, true)
    }

    /// The topology the lines of `text` give in the chosen format.
    fn parse_lines(text: &str, first_generation: bool) -> (res: Result<Topology, TopologyError>)
        ensures
            match res {
                Ok(t) => lines_spec(first_generation, split_all(text@, '\n')) == Ok::<
                    Map<Seq<char>, EntryView>,
                    TopologyErrorView,
                >(t@),
                Err(x) => lines_spec(first_generation, split_all(text@, '\n')) == Err::<
                    Map<Seq<char>, EntryView>,
                    TopologyErrorView,
                >(x.view()),
            },
    {
        let lines = split_on(text, '\n');
        let ghost lv = str_views(lines@);
        let mut topology = Topology::new();
        let mut i: usize = 0;
        assert(lv.take(0) =~= Seq::<Seq<char>>::empty());
        while i < lines.len()
            invariant
                lv == str_views(lines@),
                lv == split_all(text@, '\n'),
                i <= lines@.len(),
                lines_spec(first_generation, lv.take(i as int)) == Ok::<
                    Map<Seq<char>, EntryView>,
                    TopologyErrorView,
                >(topology@),
            decreases lines@.len() - i,
        {
            assert(lv.take(i + 1).drop_last() =~= lv.take(i as int));
            assert(lv.take(i + 1).last() == lines@[i as int]@);
            let t = trim_str(lines[i]);
            if t.unicode_len() > 0 {
                let parsed = if first_generation {
                    Self::parse_first_generation_entry(t)
                } else {
                    Self::parse_entry(t)
                };
                match parsed {
                    Ok(entry) => {
                        topology.insert_entry(entry);
                    },
                    Err(x) => {
                        proof {
                            lemma_lines_error_stays(first_generation, lv, i as int + 1);
                        }
                        return Err(x);
                    },
                }
            }
            i = i + 1;
        }
        assert(lv.take(lines@.len() as int) =~= lv);
        Ok(topology)
    }

    /// Each node's name with the names of its neighbours, each node once.
    pub fn adjacency_lists(&self) -> (res: Vec<(String, Vec<String>)>)
        ensures
            res@.len() == self@.len(),
            forall|i: int|
                0 <= i < res@.len() ==> self@.contains_key((#[trigger] res@[i]).0@) && self@[res@[i].0@].adjacent
                    == names_view(res@[i].1@),
            forall|i: int, j: int| 0 <= i < j < res@.len() ==> (#[trigger] res@[i]).0@ != (#[trigger] res@[j]).0@,
    {
        proof {
            use_type_invariant(self);
        }
        let mut res: Vec<(String, Vec<String>)> = Vec::new();
        for i in 0..self.entries.len()
            invariant
                keys_unique(self.entries@),
                res@.len() == i,
                forall|t: int|
                    0 <= t < i ==> (#[trigger] res@[t]).0@ == self.entries@[t].node.key() && names_view(res@[t].1@)
                        == names_view(self.entries@[t].adjacent@),
        {
            let name = self.entries[i].node.name();
            let adj = clone_names(&self.entries[i].adjacent);
            res.push((name, adj));
        }
        proof {
            let es = self.entries@;
            assert forall|i: int| 0 <= i < res@.len() implies self@.contains_key((#[trigger] res@[i]).0@)
                && self@[res@[i].0@].adjacent == names_view(res@[i].1@) by {
                lemma_entries_view_at(es, i);
            }
            assert(self@.dom() =~= names_of_entries(es).to_set()) by {
                assert forall|k: Seq<char>| self@.dom().contains(k) <==> names_of_entries(es).to_set().contains(k) by {
                    if has_key(es, k) {
                        let j = choose|j: int| 0 <= j < es.len() && #[trigger] es[j].node.key() == k;
                        assert(names_of_entries(es)[j] == k);
                    }
                    if names_of_entries(es).contains(k) {
                        let j = choose|j: int| 0 <= j < names_of_entries(es).len() && names_of_entries(es)[j] == k;
                        assert(es[j].node.key() == k);
                    }
                }
            }
            names_of_entries(es).unique_seq_to_set();
        }
        res
    }

    /// Adds a server with the given neighbours, replacing any node of the same name.
    pub fn add_server(&mut self, new_server: Server, adjacent: Vec<String>)
        ensures
            final(self)@ == old(self)@.insert(
                new_server.name@,
                EntryView {
                    node: NodeView::Server {
                        name: new_server.name@,
                        ip: new_server.ip@,
                        weights: new_server.weights@,
                    },
                    adjacent: names_view(adjacent@),
                },
            ),
    {
        self.insert_entry(TopologyEntry { node: TopologyNode::Server(new_server), adjacent });
    }

    /// Adds a switch with the given neighbours, replacing any node of the same name.
    pub fn add_switch(&mut self, new_switch: Switch, adjacent: Vec<String>)
        ensures
            final(self)@ == old(self)@.insert(
                new_switch.name@,
                EntryView {
                    node: NodeView::Switch {
                        name: new_switch.name@,
                        ip: new_switch.ip@,
                        number_of_ports: new_switch.number_of_ports,
                        weights: new_switch.weights@,
                    },
                    adjacent: names_view(adjacent@),
                },
            ),
    {
        self.insert_entry(TopologyEntry { node: TopologyNode::Switch(new_switch), adjacent });
    }
}

/// The paths held by a queue of name vectors.
pub open spec fn path_views(q: Seq<Vec<String>>) -> Seq<Seq<Seq<char>>> {
    q.map_values(|p: Vec<String>| names_view(p@))
}

/// Some queued path ends at `u`.
pub open spec fn in_queue(qv: Seq<Seq<Seq<char>>>, u: Seq<char>) -> bool {
    exists|k: int| 0 <= k < qv.len() && #[trigger] qv[k].last() == u
}

/// Every visited name that is no longer queued is a node whose neighbours are all visited.
pub open spec fn settled(
    g: Map<Seq<char>, Seq<Seq<char>>>,
    vis: Seq<Seq<char>>,
    qv: Seq<Seq<Seq<char>>>,
) -> bool {
    forall|u: Seq<char>|
        #[trigger] vis.contains(u) && !in_queue(qv, u) ==> g.contains_key(u) && forall|w: Seq<char>|
            #[trigger] g[u].contains(w) ==> vis.contains(w)
}

/// Every queued path is a shortest path from `s` to its last name.
pub open spec fn queue_shortest(
    g: Map<Seq<char>, Seq<Seq<char>>>,
    s: Seq<char>,
    qv: Seq<Seq<Seq<char>>>,
) -> bool {
    forall|k: int| 0 <= k < qv.len() ==> is_shortest(g, #[trigger] qv[k], s, qv[k].last())
}

/// The queued paths never get shorter and span at most two lengths.
pub open spec fn queue_layered(qv: Seq<Seq<Seq<char>>>) -> bool {
    &&& forall|k1: int, k2: int|
        0 <= k1 <= k2 < qv.len() ==> #[trigger] qv[k1].len() <= #[trigger] qv[k2].len()
    &&& qv.len() > 0 ==> qv.last().len() <= qv[0].len() + 1
}

/// A walk from `s` that leaves the visited names crosses the queue no earlier than the
/// queued path to the crossing name ends.
pub proof fn lemma_frontier(
    g: Map<Seq<char>, Seq<Seq<char>>>,
    s: Seq<char>,
    vis: Seq<Seq<char>>,
    qv: Seq<Seq<Seq<char>>>,
    q: Seq<Seq<char>>,
)
    requires
        vis.contains(s),
        settled(g, vis, qv),
        queue_shortest(g, s, qv),
        is_path(g, q),
        q[0] == s,
        !vis.contains(q.last()),
    ensures
        exists|k: int, i: int|
            0 <= k < qv.len() && 0 <= i < q.len() - 1 && #[trigger] qv[k].last() == #[trigger] q[i]
                && qv[k].len() <= i + 1,
    decreases q.len(),
{
    assert(q.len() >= 2);
    let n = q.len() - 1;
    let q2 = q.take(n);
    lemma_path_prefix(g, q, n);
    let u = q[n - 1];
    assert(step_ok(g, q, n - 1));
    if !vis.contains(u) {
        lemma_frontier(g, s, vis, qv, q2);
        let (k, i) = choose|k: int, i: int|
            0 <= k < qv.len() && 0 <= i < q2.len() - 1 && #[trigger] qv[k].last() == #[trigger] q2[i]
                && qv[k].len() <= i + 1;
        assert(q2[i] == q[i]);
    } else {
        if !in_queue(qv, u) {
            assert(g[u].contains(q.last()));
        }
        let k = choose|k: int| 0 <= k < qv.len() && #[trigger] qv[k].last() == u;
        assert(is_shortest(g, qv[k], s, qv[k].last()));
        assert(path_between(g, q2, s, u));
        assert(qv[k].last() == q[n - 1]);
    }
}

/// Extending the front of the queue by an unvisited neighbour gives a shortest path.
pub proof fn lemma_new_path_shortest(
    g: Map<Seq<char>, Seq<Seq<char>>>,
    s: Seq<char>,
    vis: Seq<Seq<char>>,
    qv: Seq<Seq<Seq<char>>>,
    w: Seq<char>,
)
    requires
        qv.len() > 0,
        vis.contains(s),
        settled(g, vis, qv),
        queue_shortest(g, s, qv),
        queue_layered(qv),
        edge(g, qv[0].last(), w),
        !vis.contains(w),
    ensures
        is_shortest(g, qv[0].push(w), s, w),
        qv[0].push(w).len() == qv[0].len() + 1,
{
    let p = qv[0];
    assert(is_shortest(g, p, s, p.last()));
    lemma_path_extend(g, p, w);
    assert forall|q: Seq<Seq<char>>| #[trigger] path_between(g, q, s, w) implies p.len() + 1
        <= q.len() by {
        lemma_frontier(g, s, vis, qv, q);
        let (k, i) = choose|k: int, i: int|
            0 <= k < qv.len() && 0 <= i < q.len() - 1 && #[trigger] qv[k].last() == #[trigger] q[i]
                && qv[k].len() <= i + 1;
        assert(qv[0].len() <= qv[k].len());
    }
}

/// Every queued path comes first in breadth-first order among the shortest walks to its
/// last name.
pub open spec fn queue_first(g: Map<Seq<char>, Seq<Seq<char>>>, s: Seq<char>, qv: Seq<Seq<Seq<char>>>) -> bool {
    forall|k: int| 0 <= k < qv.len() ==> is_first_shortest(g, #[trigger] qv[k], s)
}

/// Queued paths of the same length stand in breadth-first order.
pub open spec fn queue_ordered(g: Map<Seq<char>, Seq<Seq<char>>>, qv: Seq<Seq<Seq<char>>>) -> bool {
    forall|k1: int, k2: int|
        0 <= k1 < k2 < qv.len() && qv[k1].len() == qv[k2].len() ==> bfs_before(
            g,
            #[trigger] qv[k1],
            #[trigger] qv[k2],
        )
}

/// The queued paths one name longer than the front extend paths that came before it.
pub open spec fn queue_parents_before(g: Map<Seq<char>, Seq<Seq<char>>>, qv: Seq<Seq<Seq<char>>>) -> bool {
    forall|k: int|
        0 <= k < qv.len() && qv[k].len() == qv[0].len() + 1 ==> bfs_before(
            g,
            (#[trigger] qv[k]).drop_last(),
            qv[0],
        )
}

/// The front of the queue extended by an unvisited neighbour comes first in breadth-first
/// order among the shortest walks to that neighbour.
pub proof fn lemma_new_path_first(
    g: Map<Seq<char>, Seq<Seq<char>>>,
    s: Seq<char>,
    vis: Seq<Seq<char>>,
    qv: Seq<Seq<Seq<char>>>,
    w: Seq<char>,
)
    requires
        qv.len() > 0,
        vis.contains(s),
        settled(g, vis, qv),
        queue_shortest(g, s, qv),
        queue_first(g, s, qv),
        queue_ordered(g, qv),
        queue_layered(qv),
        edge(g, qv[0].last(), w),
        !vis.contains(w),
    ensures
        is_first_shortest(g, qv[0].push(w), s),
{
    let p = qv[0];
    let l = p.len();
    lemma_new_path_shortest(g, s, vis, qv, w);
    assert(p.push(w).last() == w);
    assert forall|q: Seq<Seq<char>>| #[trigger] is_shortest(g, q, s, p.push(w).last()) implies q == p.push(w)
        || bfs_before(g, p.push(w), q) by {
        assert(q.len() == l + 1);
        lemma_shortest_prefix(g, q, s);
        let r = q.drop_last();
        let u = q[l - 1];
        assert(r.last() == u);
        assert(r.push(w) =~= q);
        assert(is_first_shortest(g, p, s));
        if u == p.last() {
            assert(is_shortest(g, r, s, p.last()));
            if r == p {
                assert(q =~= p.push(w));
            } else {
                lemma_bfs_extend(g, p, r, w, w);
            }
        } else {
            if !vis.contains(u) {
                lemma_frontier(g, s, vis, qv, r);
                let (k, i) = choose|k: int, i: int|
                    0 <= k < qv.len() && 0 <= i < r.len() - 1 && #[trigger] qv[k].last() == #[trigger] r[i]
                        && qv[k].len() <= i + 1;
                assert(qv[0].len() <= qv[k].len());
                assert(false);
            }
            assert(step_ok(g, q, l - 1));
            if !in_queue(qv, u) {
                assert(g[u].contains(w));
                assert(false);
            }
            let k = choose|k: int| 0 <= k < qv.len() && #[trigger] qv[k].last() == u;
            assert(k != 0);
            assert(is_first_shortest(g, qv[k], s));
            assert(is_shortest(g, r, s, qv[k].last()));
            assert(qv[k].len() == l);
            assert(bfs_before(g, qv[0], qv[k]));
            if r != qv[k] {
                assert(bfs_before(g, qv[k], r));
                lemma_bfs_transitive(g, p, qv[k], r);
            }
            lemma_bfs_extend(g, p, r, w, w);
        }
    }
}

/// A new child of the front, listed after the children already queued and unlisted
/// before, comes after every queued path of its length.
pub proof fn lemma_new_path_last(
    g: Map<Seq<char>, Seq<Seq<char>>>,
    qh: Seq<Seq<Seq<char>>>,
    q0: Seq<Seq<Seq<char>>>,
    j: int,
    w: Seq<char>,
)
    requires
        qh.len() > 0,
        qh[0].len() >= 1,
        queue_parents_before(g, qh),
        q0.len() >= qh.len() - 1,
        forall|k: int| 0 <= k < qh.len() - 1 ==> #[trigger] q0[k] == qh[k + 1],
        forall|k: int|
            qh.len() - 1 <= k < q0.len() ==> (#[trigger] q0[k]).len() == qh[0].len() + 1
                && q0[k].drop_last() == qh[0] && exists|t: int|
                0 <= t < j && #[trigger] g[qh[0].last()][t] == q0[k].last(),
        0 <= j <= g[qh[0].last()].len(),
        forall|t: int| 0 <= t < j ==> #[trigger] g[qh[0].last()][t] != w,
    ensures
        forall|k: int|
            0 <= k < q0.len() && (#[trigger] q0[k]).len() == qh[0].len() + 1 ==> bfs_before(
                g,
                q0[k],
                qh[0].push(w),
            ),
{
    let p = qh[0];
    assert forall|k: int| 0 <= k < q0.len() && (#[trigger] q0[k]).len() == p.len() + 1 implies bfs_before(
        g,
        q0[k],
        p.push(w),
    ) by {
        if k < qh.len() - 1 {
            assert(q0[k] == qh[k + 1]);
            assert(bfs_before(g, qh[k + 1].drop_last(), p));
            lemma_bfs_extend(g, qh[k + 1].drop_last(), p, qh[k + 1].last(), w);
            assert(qh[k + 1].drop_last().push(qh[k + 1].last()) =~= qh[k + 1]);
        } else {
            let t = choose|t: int| 0 <= t < j && #[trigger] g[p.last()][t] == q0[k].last();
            lemma_bfs_siblings(g, p, q0[k].last(), w, t);
            assert(p.push(q0[k].last()) =~= q0[k]);
        }
    }
}

/// After the front's neighbours are queued, the queued paths one name longer than the new
/// front extend paths that came before it.
pub proof fn lemma_parents_before_after(
    g: Map<Seq<char>, Seq<Seq<char>>>,
    qh: Seq<Seq<Seq<char>>>,
    q1: Seq<Seq<Seq<char>>>,
)
    requires
        qh.len() > 0,
        queue_layered(qh),
        queue_ordered(g, qh),
        queue_parents_before(g, qh),
        q1.len() >= qh.len() - 1,
        forall|k: int| 0 <= k < qh.len() - 1 ==> #[trigger] q1[k] == qh[k + 1],
        forall|k: int|
            qh.len() - 1 <= k < q1.len() ==> (#[trigger] q1[k]).len() == qh[0].len() + 1
                && q1[k].drop_last() == qh[0],
    ensures
        queue_parents_before(g, q1),
{
    let p = qh[0];
    let l = p.len();
    if q1.len() > 0 {
        let f = q1[0];
        assert forall|k: int| 0 <= k < q1.len() && (#[trigger] q1[k]).len() == q1[0].len() + 1 implies bfs_before(
            g,
            q1[k].drop_last(),
            q1[0],
        ) by {
            if qh.len() > 1 {
                assert(f == qh[1]);
                assert(qh[0].len() <= qh[1].len());
                assert(qh[1].len() <= qh[qh.len() - 1].len());
                if k < qh.len() - 1 {
                    assert(q1[k] == qh[k + 1]);
                    assert(qh[k + 1].len() <= qh[qh.len() - 1].len());
                } else {
                    assert(q1[k].len() == l + 1);
                }
                assert(f.len() == l);
                assert(bfs_before(g, qh[0], qh[1]));
                if k < qh.len() - 1 {
                    assert(bfs_before(g, qh[k + 1].drop_last(), qh[0]));
                    lemma_bfs_transitive(g, qh[k + 1].drop_last(), qh[0], qh[1]);
                }
            } else {
                assert(f.len() == l + 1);
                assert(q1[k].len() == l + 1);
            }
        }
    }
}

/// The front of the queue is a name the search takes from its queue, so it is a node.
pub proof fn lemma_front_searched(
    g: Map<Seq<char>, Seq<Seq<char>>>,
    s: Seq<char>,
    e: Seq<char>,
    vis: Seq<Seq<char>>,
    qv: Seq<Seq<Seq<char>>>,
)
    requires
        qv.len() > 0,
        vis.contains(s),
        settled(g, vis, qv),
        queue_shortest(g, s, qv),
        queue_first(g, s, qv),
        queue_ordered(g, qv),
        queue_layered(qv),
        vis.contains(e) ==> in_queue(qv, e),
        searched_names_are_nodes(g, s, e),
    ensures
        g.contains_key(qv[0].last()),
{
    let p = qv[0];
    assert(is_first_shortest(g, p, s));
    assert forall|q: Seq<Seq<char>>| #[trigger] is_shortest(g, q, s, e) implies p.len() < q.len() || q == p
        || bfs_before(g, p, q) by {
        if vis.contains(e) {
            let k = choose|k: int| 0 <= k < qv.len() && #[trigger] qv[k].last() == e;
            assert(is_first_shortest(g, qv[k], s));
            assert(qv[0].len() <= qv[k].len());
            assert(q.len() == qv[k].len());
            if k > 0 && qv[0].len() == qv[k].len() {
                assert(bfs_before(g, qv[0], qv[k]));
                if q != qv[k] {
                    assert(bfs_before(g, qv[k], q));
                    lemma_bfs_transitive(g, qv[0], qv[k], q);
                }
            }
        } else {
            lemma_frontier(g, s, vis, qv, q);
            let (k, i) = choose|k: int, i: int|
                0 <= k < qv.len() && 0 <= i < q.len() - 1 && #[trigger] qv[k].last() == #[trigger] q[i]
                    && qv[k].len() <= i + 1;
            assert(qv[0].len() <= qv[k].len());
        }
    }
}

/// Tokens that are all 16-bit numbers give their values, in order.
pub proof fn lemma_weights_all_parse(tokens: Seq<Seq<char>>)
    requires
        forall|i: int| 0 <= i < tokens.len() ==> (#[trigger] parse_u16_spec(tokens[i])) is Some,
    ensures
        parse_weights_spec(tokens) == Ok::<Seq<u16>, Seq<char>>(
            tokens.map_values(|t: Seq<char>| parse_u16_spec(t)->0),
        ),
    decreases tokens.len(),
{
    let f = |t: Seq<char>| parse_u16_spec(t)->0;
    if tokens.len() > 0 {
        let d = tokens.drop_last();
        assert forall|i: int| 0 <= i < d.len() implies (#[trigger] parse_u16_spec(d[i])) is Some by {
            assert(d[i] == tokens[i]);
            assert(parse_u16_spec(tokens[i]) is Some);
        }
        lemma_weights_all_parse(d);
        assert(parse_u16_spec(tokens[tokens.len() - 1]) is Some);
        assert(tokens.map_values(f) =~= d.map_values(f).push(f(tokens.last())));
    } else {
        assert(tokens.map_values(f) =~= Seq::<u16>::empty());
    }
}

/// A switch line of the current format whose name and address are given, whose port count
/// and whose whitespace-separated weights are all 16-bit numbers, describes that switch:
/// its weights are the numbers of the fifth field, in order, and its neighbours the words
/// of the sixth.
pub proof fn law_switch_line(line: Seq<char>)
    requires
        trim(pieces(line, ',', 6)[0]).len() > 0,
        pieces(line, ',', 6).len() > 1 && trim(pieces(line, ',', 6)[1]).len() > 0,
        pieces(line, ',', 6).len() > 3,
        trim(pieces(line, ',', 6)[2]) == switch_word(),
        parse_u16_spec(trim(pieces(line, ',', 6)[3])) is Some,
        forall|i: int|
            0 <= i < words(field(pieces(line, ',', 6), 4)).len() ==> (#[trigger] parse_u16_spec(
                words(field(pieces(line, ',', 6), 4))[i],
            )) is Some,
    ensures
        parse_entry_spec(line) == Ok::<EntryView, TopologyErrorView>(
            EntryView {
                node: NodeView::Switch {
                    name: trim(pieces(line, ',', 6)[0]),
                    ip: trim(pieces(line, ',', 6)[1]),
                    number_of_ports: parse_u16_spec(trim(pieces(line, ',', 6)[3]))->0,
                    weights: words(field(pieces(line, ',', 6), 4)).map_values(
                        |t: Seq<char>| parse_u16_spec(t)->0,
                    ),
                },
                adjacent: words(field(pieces(line, ',', 6), 5)),
            },
        ),
{
    lemma_weights_all_parse(words(field(pieces(line, ',', 6), 4)));
}

/// A line of the current format whose name, address and type are given, whose type is not
/// "switch" and whose whitespace-separated weights are all 16-bit numbers, describes a
/// server: its weights are the numbers of the fourth field, in order, and its neighbours
/// the words of the fifth.
pub proof fn law_server_line(line: Seq<char>)
    requires
        trim(pieces(line, ',', 6)[0]).len() > 0,
        pieces(line, ',', 6).len() > 2,
        trim(pieces(line, ',', 6)[1]).len() > 0,
        trim(pieces(line, ',', 6)[2]).len() > 0,
        trim(pieces(line, ',', 6)[2]) != switch_word(),
        forall|i: int|
            0 <= i < words(field(pieces(line, ',', 6), 3)).len() ==> (#[trigger] parse_u16_spec(
                words(field(pieces(line, ',', 6), 3))[i],
            )) is Some,
    ensures
        parse_entry_spec(line) == Ok::<EntryView, TopologyErrorView>(
            EntryView {
                node: NodeView::Server {
                    name: trim(pieces(line, ',', 6)[0]),
                    ip: trim(pieces(line, ',', 6)[1]),
                    weights: words(field(pieces(line, ',', 6), 3)).map_values(
                        |t: Seq<char>| parse_u16_spec(t)->0,
                    ),
                },
                adjacent: words(field(pieces(line, ',', 6), 4)),
            },
        ),
{
    lemma_weights_all_parse(words(field(pieces(line, ',', 6), 3)));
}

/// A first-generation server line with at least five fields, whose type is not "switch"
/// and whose fourth field lists 16-bit numbers between single spaces, describes a server:
/// its weights are those numbers, in order, and its one neighbour the trimmed fifth field.
pub proof fn law_first_generation_server_line(line: Seq<char>)
    requires
        split_all(line, ',').len() >= 5,
        trim(split_all(line, ',')[2]) != switch_word(),
        forall|i: int|
            0 <= i < split_all(trim(split_all(line, ',')[3]), ' ').len() ==> (#[trigger] parse_u16_spec(
                trim(split_all(trim(split_all(line, ',')[3]), ' ')[i]),
            )) is Some,
    ensures
        first_generation_entry_spec(line) == Ok::<EntryView, TopologyErrorView>(
            EntryView {
                node: NodeView::Server {
                    name: trim(split_all(line, ',')[0]),
                    ip: trim(split_all(line, ',')[1]),
                    weights: split_all(trim(split_all(line, ',')[3]), ' ').map_values(
                        |t: Seq<char>| parse_u16_spec(trim(t))->0,
                    ),
                },
                adjacent: seq![trim(split_all(line, ',')[4])],
            },
        ),
{
    let raw = split_all(trim(split_all(line, ',')[3]), ' ');
    let tokens = spaced_tokens(trim(split_all(line, ',')[3]));
    assert forall|i: int| 0 <= i < tokens.len() implies (#[trigger] parse_u16_spec(tokens[i])) is Some by {
        assert(tokens[i] == trim(raw[i]));
        assert(parse_u16_spec(trim(raw[i])) is Some);
    }
    lemma_weights_all_parse(tokens);
    assert(tokens.map_values(|t: Seq<char>| parse_u16_spec(t)->0) =~= raw.map_values(
        |t: Seq<char>| parse_u16_spec(trim(t))->0,
    ));
}

/// A first-generation switch line with at least six fields, whose port count and whose
/// fifth field's numbers between single spaces are all 16-bit numbers, describes a switch:
/// its weights are those numbers, in order, and its neighbours the pieces of the sixth
/// field between single spaces.
pub proof fn law_first_generation_switch_line(line: Seq<char>)
    requires
        split_all(line, ',').len() >= 6,
        trim(split_all(line, ',')[2]) == switch_word(),
        parse_u16_spec(trim(split_all(line, ',')[3])) is Some,
        forall|i: int|
            0 <= i < split_all(trim(split_all(line, ',')[4]), ' ').len() ==> (#[trigger] parse_u16_spec(
                trim(split_all(trim(split_all(line, ',')[4]), ' ')[i]),
            )) is Some,
    ensures
        first_generation_entry_spec(line) == Ok::<EntryView, TopologyErrorView>(
            EntryView {
                node: NodeView::Switch {
                    name: trim(split_all(line, ',')[0]),
                    ip: trim(split_all(line, ',')[1]),
                    number_of_ports: parse_u16_spec(trim(split_all(line, ',')[3]))->0,
                    weights: split_all(trim(split_all(line, ',')[4]), ' ').map_values(
                        |t: Seq<char>| parse_u16_spec(trim(t))->0,
                    ),
                },
                adjacent: split_all(split_all(line, ',')[5], ' '),
            },
        ),
{
    let raw = split_all(trim(split_all(line, ',')[4]), ' ');
    let tokens = spaced_tokens(trim(split_all(line, ',')[4]));
    assert forall|i: int| 0 <= i < tokens.len() implies (#[trigger] parse_u16_spec(tokens[i])) is Some by {
        assert(tokens[i] == trim(raw[i]));
        assert(parse_u16_spec(trim(raw[i])) is Some);
    }
    lemma_weights_all_parse(tokens);
    assert(tokens.map_values(|t: Seq<char>| parse_u16_spec(t)->0) =~= raw.map_values(
        |t: Seq<char>| parse_u16_spec(trim(t))->0,
    ));
}

/// Every walk from a name of a set closed under neighbours stays in it.
pub proof fn lemma_closed_walk(
    g: Map<Seq<char>, Seq<Seq<char>>>,
    s: Seq<char>,
    vis: Seq<Seq<char>>,
    q: Seq<Seq<char>>,
)
    requires
        vis.contains(s),
        settled(g, vis, Seq::<Seq<Seq<char>>>::empty()),
        is_path(g, q),
        q[0] == s,
    ensures
        vis.contains(q.last()),
    decreases q.len(),
{
    if q.len() > 1 {
        let n = q.len() - 1;
        lemma_path_prefix(g, q, n);
        lemma_closed_walk(g, s, vis, q.take(n));
        assert(step_ok(g, q, n - 1));
        assert(!in_queue(Seq::<Seq<Seq<char>>>::empty(), q[n - 1]));
        assert(g[q[n - 1]].contains(q.last()));
    }
}

/// A sequence without repeats whose elements all occur in `u` is no longer than `u`.
pub proof fn lemma_distinct_len<A>(a: Seq<A>, u: Seq<A>)
    requires
        a.no_duplicates(),
        forall|x: A| a.contains(x) ==> u.contains(x),
    ensures
        a.len() <= u.len(),
{
    a.unique_seq_to_set();
    u.lemma_cardinality_of_set();
    assert(a.to_set().subset_of(u.to_set()));
    vstd::seq_lib::seq_to_set_is_finite(u);
    vstd::set_lib::lemma_len_subset(a.to_set(), u.to_set());
}

/// Whether `v` holds a string equal to `n`.
pub fn contains_name(v: &Vec<String>, n: &String) -> (res: bool)
    ensures
        res == names_view(v@).contains(n@),
{
    let mut i: usize = 0;
    while i < v.len()
        invariant
            i <= v@.len(),
            forall|j: int| 0 <= j < i ==> v@[j]@ != n@,
        decreases v@.len() - i,
    {
        if v[i] == *n {
            proof {
                assert(names_view(v@)[i as int] == n@);
            }
            return true;
        }
        i = i + 1;
    }
    proof {
        if names_view(v@).contains(n@) {
            let j = choose|j: int| 0 <= j < names_view(v@).len() && names_view(v@)[j] == n@;
            assert(v@[j]@ == n@);
        }
    }
    false
}

/// A copy of a vector of strings.
pub fn clone_names(v: &Vec<String>) -> (res: Vec<String>)
    ensures
        res@ == v@,
{
    let mut res: Vec<String> = Vec::new();
    for i in 0..v.len()
        invariant
            res@ == v@.take(i as int),
    {
        res.push(v[i].clone());
        assert(res@ =~= v@.take(i + 1));
    }
    assert(res@ =~= v@);
    res
}

/// Once a prefix of the tokens holds a bad weight, every longer prefix reports it.
pub proof fn lemma_weights_error_stays(tv: Seq<Seq<char>>, m: int)
    requires
        0 <= m <= tv.len(),
        parse_weights_spec(tv.take(m)) is Err,
    ensures
        parse_weights_spec(tv) == parse_weights_spec(tv.take(m)),
    decreases tv.len() - m,
{
    if m < tv.len() {
        assert(tv.take(m + 1).drop_last() =~= tv.take(m));
        lemma_weights_error_stays(tv, m + 1);
    } else {
        assert(tv.take(m) =~= tv);
    }
}

/// Once a prefix of the lines holds a bad line, every longer prefix reports it.
pub proof fn lemma_lines_error_stays(first_generation: bool, lv: Seq<Seq<char>>, m: int)
    requires
        0 <= m <= lv.len(),
        lines_spec(first_generation, lv.take(m)) is Err,
    ensures
        lines_spec(first_generation, lv) == lines_spec(first_generation, lv.take(m)),
    decreases lv.len() - m,
{
    if m < lv.len() {
        assert(lv.take(m + 1).drop_last() =~= lv.take(m));
        lemma_lines_error_stays(first_generation, lv, m + 1);
    } else {
        assert(lv.take(m) =~= lv);
    }
}

} // verus!
