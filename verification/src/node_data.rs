//! Data attached to nodes, carried along an event stream: each node-entering
//! event says whether its node has data, and the data follow in a separate
//! list, in the order of the nodes.

use vstd::prelude::*;
use vstd::string::StringExecFns;

use crate::builder::{empty_model, BuilderModel};
use crate::events::{
    apply_event, event_allowed, events_allowed, events_buildable, events_tree, events_view, lemma_events_roundtrip,
    run_events, tree_events, tree_fits_syntax, Event, EventModel,
};
use crate::green::{tree_bytes, GreenTree};
use crate::kind::Syntax;
use crate::syntax::node::SyntaxNode;

verus! {

/// The flags of the node-entering events, in order.
pub open spec fn enter_flags(es: Seq<EventModel>) -> Seq<bool>
    decreases es.len(),
{
    if es.len() == 0 {
        Seq::empty()
    } else {
        enter_flags(es.drop_last()) + match es.last() {
            EventModel::Enter(_, f) => seq![f],
            _ => Seq::empty(),
        }
    }
}

/// An event with its data flag cleared.
pub open spec fn unflagged(e: EventModel) -> EventModel {
    match e {
        EventModel::Enter(k, _) => EventModel::Enter(k, false),
        _ => e,
    }
}

/// The events with every data flag cleared.
pub open spec fn unflag_all(es: Seq<EventModel>) -> Seq<EventModel> {
    es.map_values(|e: EventModel| unflagged(e))
}

/// The number of flags that are set.
pub open spec fn count_set(fs: Seq<bool>) -> nat
    decreases fs.len(),
{
    if fs.len() == 0 {
        0
    } else {
        count_set(fs.drop_last()) + if fs.last() {
            1nat
        } else {
            0nat
        }
    }
}

/// Which nodes have data.
pub open spec fn data_flags<D>(nd: Seq<Option<D>>) -> Seq<bool> {
    nd.map_values(|o: Option<D>| o is Some)
}

/// The data of the nodes that have some, in order.
pub open spec fn data_values<D>(nd: Seq<Option<D>>) -> Seq<D>
    decreases nd.len(),
{
    if nd.len() == 0 {
        Seq::empty()
    } else {
        data_values(nd.drop_last()) + match nd.last() {
            Some(d) => seq![d],
            None => Seq::empty(),
        }
    }
}

/// The data of each node: the flagged nodes take the data of the list in
/// turn, the others have none.
pub open spec fn spread_data<D>(fs: Seq<bool>, data: Seq<D>) -> Seq<Option<D>> {
    Seq::new(fs.len(), |i: int| if fs[i] { Some(data[count_set(fs.take(i)) as int]) } else { None })
}

/// Why a data list does not fit the flags of a stream.
#[derive(Debug, Clone, Copy, PartialEq, Eq)]
pub enum DataError {
    /// More nodes are flagged than there are data.
    MissingData,
    /// There are more data than flagged nodes.
    TooMuchData,
}

impl DataError {
    /// The message describing this error.
    pub fn message(&self) -> (r: String)
        ensures
            r@ == (match *self {
                DataError::MissingData => "invalid serialized tree"@,
                DataError::TooMuchData => "serialized SyntaxNode contained too many data elements"@,
            }),
    {
        match self {
            DataError::MissingData => {
                proof {
                    reveal_strlit("invalid serialized tree");
                }
                String::from_str("invalid serialized tree")
            },
            DataError::TooMuchData => {
                proof {
                    reveal_strlit("serialized SyntaxNode contained too many data elements");
                }
                String::from_str("serialized SyntaxNode contained too many data elements")
            },
        }
    }
}

proof fn lemma_count_set_push(fs: Seq<bool>, f: bool)
    ensures
        count_set(fs.push(f)) == count_set(fs) + if f {
            1nat
        } else {
            0nat
        },
{
    assert(fs.push(f).drop_last() =~= fs);
}

/// The flags of the nodes with data count the data.
pub proof fn lemma_data_counts<D>(nd: Seq<Option<D>>)
    ensures
        count_set(data_flags(nd)) == data_values(nd).len(),
        data_flags(nd).len() == nd.len(),
    decreases nd.len(),
{
    if nd.len() > 0 {
        lemma_data_counts(nd.drop_last());
        assert(data_flags(nd).drop_last() =~= data_flags(nd.drop_last()));
    }
}

/// The data before node `i` are the data of the nodes before it, and the data
/// of node `i`, where it has some, comes next.
proof fn lemma_data_values_at<D>(nd: Seq<Option<D>>, i: int)
    requires
        0 <= i < nd.len(),
    ensures
        count_set(data_flags(nd).take(i)) == data_values(nd.take(i)).len(),
        nd[i] matches Some(d) ==> data_values(nd).len() > data_values(nd.take(i)).len()
            && data_values(nd)[data_values(nd.take(i)).len() as int] == d,
    decreases nd.len(),
{
    assert(data_flags(nd).take(i) =~= data_flags(nd.take(i)));
    lemma_data_counts(nd.take(i));
    if i < nd.len() - 1 {
        lemma_data_values_at(nd.drop_last(), i);
        assert(nd.drop_last().take(i) =~= nd.take(i));
        assert(nd.drop_last()[i] == nd[i]);
    } else {
        assert(nd.drop_last() =~= nd.take(i));
    }
}

/// Writing node data as flags and a list, and spreading the list over the
/// flags again, gives back the data of every node.
pub proof fn lemma_data_roundtrip<D>(nd: Seq<Option<D>>)
    ensures
        count_set(data_flags(nd)) == data_values(nd).len(),
        spread_data(data_flags(nd), data_values(nd)) == nd,
{
    lemma_data_counts(nd);
    let s = spread_data(data_flags(nd), data_values(nd));
    assert forall|i: int| 0 <= i < nd.len() implies s[i] == nd[i] by {
        lemma_data_values_at(nd, i);
    }
    assert(s =~= nd);
}

/// Data flags do not change what a stream builds.
pub proof fn lemma_flags_do_not_build<S: Syntax>(m: BuilderModel, es: Seq<EventModel>)
    ensures
        run_events(m, unflag_all(es)) == run_events(m, es),
        events_allowed::<S>(m, unflag_all(es)) == events_allowed::<S>(m, es),
    decreases es.len(),
{
    if es.len() > 0 {
        assert(unflag_all(es).drop_last() =~= unflag_all(es.drop_last()));
        lemma_flags_do_not_build::<S>(m, es.drop_last());
        let r = run_events(m, es.drop_last());
        assert(apply_event(r, unflagged(es.last())) == apply_event(r, es.last()));
        assert(event_allowed::<S>(r, unflagged(es.last())) == event_allowed::<S>(r, es.last()));
    }
}

/// Writing a tree with node data out and reading it back gives the same tree
/// and the same data on every node: `events` are the tree's events with the
/// data flags of `nd`, and the list holds the data of the flagged nodes.
pub proof fn lemma_tree_and_data_roundtrip<S: Syntax, D>(t: GreenTree, events: Seq<EventModel>, nd: Seq<Option<D>>)
    requires
        t is Node,
        tree_bytes(t).len() <= u32::MAX,
        tree_fits_syntax::<S>(t),
        unflag_all(events) == unflag_all(tree_events(t)),
        enter_flags(events) == data_flags(nd),
    ensures
        events_buildable::<S>(events),
        events_tree(events) == t,
        count_set(enter_flags(events)) == data_values(nd).len(),
        spread_data(enter_flags(events), data_values(nd)) == nd,
{
    lemma_events_roundtrip::<S>(t);
    lemma_flags_do_not_build::<S>(empty_model(), events);
    lemma_flags_do_not_build::<S>(empty_model(), tree_events(t));
    lemma_data_roundtrip(nd);
}

/// The flags of the node-entering events of `events`, in order.
pub fn enter_flags_of(events: &[Event]) -> (r: Vec<bool>)
    ensures
        r@ == enter_flags(events_view(events@)),
{
    let ghost es = events_view(events@);
    let mut out: Vec<bool> = Vec::new();
    let mut i: usize = 0;
    proof {
        assert(es.take(0) =~= Seq::<EventModel>::empty());
    }
    while i < events.len()
        invariant
            es == events_view(events@),
            es.len() == events@.len(),
            i <= es.len(),
            out@ == enter_flags(es.take(i as int)),
        decreases es.len() - i,
    {
        proof {
            assert(es.take(i + 1).drop_last() =~= es.take(i as int));
            assert(es[i as int] == events@[i as int]@);
        }
        match &events[i] {
            Event::EnterNode(_, f) => {
                out.push(*f);
            },
            _ => {},
        }
        proof {
            assert(out@ =~= enter_flags(es.take(i + 1)));
        }
        i = i + 1;
    }
    proof {
        assert(es.take(es.len() as int) =~= es);
    }
    out
}

/// Sets the data flags of `events` from `node_data`, which has one entry per
/// node-entering event, and returns the events with the list of the data.
pub fn flag_data<D>(events: Vec<Event>, node_data: Vec<Option<D>>) -> (r: (Vec<Event>, Vec<D>))
    requires
        node_data@.len() == enter_flags(events_view(events@)).len(),
    ensures
        unflag_all(events_view(r.0@)) == unflag_all(events_view(events@)),
        enter_flags(events_view(r.0@)) == data_flags(node_data@),
        r.1@ == data_values(node_data@),
{
    let ghost es = events_view(events@);
    let ghost nd = node_data@;
    let count = events.len();
    let mut rest = events;
    let mut data = node_data;
    let mut out: Vec<Event> = Vec::new();
    let mut values: Vec<D> = Vec::new();
    let mut i: usize = 0;
    let ghost mut n: int = 0;
    proof {
        assert(es.take(0) =~= Seq::<EventModel>::empty());
        assert(nd.take(0) =~= Seq::<Option<D>>::empty());
        assert(events_view(rest@) =~= es.skip(0));
        assert(data@ =~= nd.skip(0));
        assert(unflag_all(events_view(out@)) =~= unflag_all(es.take(0)));
    }
    while rest.len() > 0
        invariant
            i <= es.len(),
            rest@.len() + i == es.len(),
            es.len() == count,
            0 <= n <= nd.len(),
            nd.len() == enter_flags(es).len(),
            events_view(rest@) == es.skip(i as int),
            data@ == nd.skip(n),
            n == enter_flags(es.take(i as int)).len(),
            unflag_all(events_view(out@)) == unflag_all(es.take(i as int)),
            enter_flags(events_view(out@)) == data_flags(nd.take(n)),
            values@ == data_values(nd.take(n)),
        decreases rest@.len(),
    {
        proof {
            assert(events_view(rest@)[0] == rest@[0]@);
        }
        let ghost old_rest = rest@;
        let e = rest.remove(0);
        let ghost before_out = events_view(out@);
        proof {
            assert(e@ == es[i as int]);
            assert(es.take(i + 1).drop_last() =~= es.take(i as int));
            assert(es.take(i + 1).last() == es[i as int]);
            assert(rest@ =~= old_rest.skip(1));
            assert forall|k: int| 0 <= k < rest@.len() implies events_view(rest@)[k] == es.skip(i + 1)[k] by {
                assert(events_view(rest@)[k] == rest@[k]@);
                assert(rest@[k] == old_rest[k + 1]);
                assert(events_view(old_rest)[k + 1] == old_rest[k + 1]@);
            }
            assert(events_view(rest@) =~= es.skip(i + 1));
            assert(unflag_all(before_out.push(e@)) =~= unflag_all(before_out).push(unflagged(e@)));
            assert(unflag_all(es.take(i + 1)) =~= unflag_all(es.take(i as int)).push(unflagged(es[i as int])));
            lemma_enter_flags_bound(es, i as int);
        }
        match e {
            Event::EnterNode(kind, _) => {
                let d = data.remove(0);
                let flag = d.is_some();
                out.push(Event::EnterNode(kind, flag));
                match d {
                    Some(v) => {
                        values.push(v);
                    },
                    None => {},
                }
                proof {
                    assert(nd.take(n + 1).drop_last() =~= nd.take(n));
                    assert(nd.take(n + 1).last() == nd[n]);
                    assert(data_flags(nd.take(n + 1)) =~= data_flags(nd.take(n)).push(flag));
                    assert(events_view(out@).drop_last() =~= before_out);
                    assert(data@ =~= nd.skip(n + 1));
                    n = n + 1;
                }
            },
            other => {
                out.push(other);
                proof {
                    assert(events_view(out@).drop_last() =~= before_out);
                }
            },
        }
        proof {
            assert(events_view(out@) =~= before_out.push(events_view(out@).last()));
        }
        i = i + 1;
    }
    proof {
        assert(es.skip(i as int).len() == 0);
        assert(es.take(i as int) =~= es);
        assert(nd.take(n) =~= nd);
    }
    (out, values)
}

/// There are no more node-entering events in a prefix than in the whole stream.
proof fn lemma_enter_flags_bound(es: Seq<EventModel>, i: int)
    requires
        0 <= i < es.len(),
    ensures
        enter_flags(es.take(i + 1)) == enter_flags(es.take(i)) + match es[i] {
            EventModel::Enter(_, f) => seq![f],
            _ => Seq::<bool>::empty(),
        },
        enter_flags(es.take(i + 1)).len() <= enter_flags(es).len(),
    decreases es.len(),
{
    assert(es.take(i + 1).drop_last() =~= es.take(i));
    if i + 1 < es.len() {
        lemma_enter_flags_bound(es.drop_last(), i);
        assert(es.drop_last().take(i + 1) =~= es.take(i + 1));
        assert(es.drop_last().take(i) =~= es.take(i));
    } else {
        assert(es.take(i + 1) =~= es);
    }
}

/// Spreads a data list over the flagged nodes of `events`: each flagged node
/// takes the next datum. Fails where more nodes are flagged than there are
/// data, and where data are left over.
pub fn spread_node_data<D>(events: &[Event], data: Vec<D>) -> (r: Result<Vec<Option<D>>, DataError>)
    ensures
        ({
            let fs = enter_flags(events_view(events@));
            &&& r is Ok <==> count_set(fs) == data@.len()
            &&& r == Err::<Vec<Option<D>>, DataError>(DataError::MissingData) <==> count_set(fs) > data@.len()
            &&& r == Err::<Vec<Option<D>>, DataError>(DataError::TooMuchData) <==> count_set(fs) < data@.len()
            &&& r matches Ok(v) ==> v@ == spread_data(fs, data@)
        }),
{
    let flags = enter_flags_of(events);
    let ghost fs = flags@;
    let ghost all = data@;
    let total = data.len();
    let mut rest = data;
    let mut out: Vec<Option<D>> = Vec::new();
    let mut i: usize = 0;
    let mut used: usize = 0;
    proof {
        assert(fs.take(0) =~= Seq::<bool>::empty());
        assert(rest@ =~= all.skip(0));
    }
    while i < flags.len()
        invariant
            fs == flags@,
            fs == enter_flags(events_view(events@)),
            all == data@,
            i <= fs.len(),
            used == count_set(fs.take(i as int)),
            used <= all.len(),
            total == all.len(),
            rest@ == all.skip(used as int),
            out@.len() == i,
            forall|k: int| 0 <= k < i ==> #[trigger] out@[k] == spread_data(fs, all)[k],
        decreases fs.len() - i,
    {
        proof {
            assert(fs.take(i + 1).drop_last() =~= fs.take(i as int));
            assert(fs.take(i + 1).last() == fs[i as int]);
        }
        if flags[i] {
            if rest.len() == 0 {
                proof {
                    lemma_count_set_prefix(fs, i + 1);
                    assert(used == all.len());
                    assert(count_set(fs.take(i + 1)) == used + 1);
                }
                return Err(DataError::MissingData);
            }
            let d = rest.remove(0);
            proof {
                assert(d == all[used as int]);
                assert(rest@ =~= all.skip(used + 1));
            }
            out.push(Some(d));
            used = used + 1;
        } else {
            out.push(None);
        }
        i = i + 1;
    }
    proof {
        assert(fs.take(fs.len() as int) =~= fs);
        assert(rest@.len() == all.len() - used);
    }
    if rest.len() > 0 {
        return Err(DataError::TooMuchData);
    }
    proof {
        assert(out@ =~= spread_data(fs, all));
    }
    Ok(out)
}

/// No prefix has more flags set than the whole.
proof fn lemma_count_set_prefix(fs: Seq<bool>, i: int)
    requires
        0 <= i <= fs.len(),
    ensures
        count_set(fs.take(i)) <= count_set(fs),
    decreases fs.len() - i,
{
    if i < fs.len() {
        lemma_count_set_prefix(fs, i + 1);
        assert(fs.take(i + 1).drop_last() =~= fs.take(i));
    } else {
        assert(fs.take(i) =~= fs);
    }
}


/// Whether two paths are equal.
fn paths_eq(a: &[usize], b: &[usize]) -> (r: bool)
    ensures
        r == (a@ == b@),
{
    if a.len() != b.len() {
        return false;
    }
    let mut i: usize = 0;
    while i < a.len()
        invariant
            i <= a@.len(),
            a@.len() == b@.len(),
            forall|k: int| 0 <= k < i ==> a@[k] == b@[k],
        decreases a@.len() - i,
    {
        if a[i] != b[i] {
            return false;
        }
        i = i + 1;
    }
    proof {
        assert(a@ =~= b@);
    }
    true
}

/// Data attached to nodes of one tree, each node known by its path from the
/// root: at most one value for each node.
pub struct NodeDataMap<D> {
    paths: Vec<Vec<usize>>,
    values: Vec<D>,
}

/// The map from paths to values that parallel lists of distinct paths and
/// their values hold.
pub open spec fn paths_map<D>(paths: Seq<Vec<usize>>, values: Seq<D>) -> Map<Seq<usize>, D> {
    Map::new(
        |p: Seq<usize>| exists|i: int| 0 <= i < paths.len() && #[trigger] paths[i]@ == p,
        |p: Seq<usize>| values[choose|i: int| 0 <= i < paths.len() && #[trigger] paths[i]@ == p],
    )
}

/// Whether no path occurs twice.
pub open spec fn distinct_paths(paths: Seq<Vec<usize>>) -> bool {
    forall|i: int, j: int| 0 <= i < paths.len() && 0 <= j < paths.len() && i != j ==> #[trigger] paths[i]@ != #[trigger] paths[j]@
}

/// A path at index `i` of distinct paths maps to the value at `i`.
proof fn lemma_paths_map_at<D>(paths: Seq<Vec<usize>>, values: Seq<D>, i: int)
    requires
        distinct_paths(paths),
        0 <= i < paths.len(),
    ensures
        paths_map(paths, values).contains_key(paths[i]@),
        paths_map(paths, values)[paths[i]@] == values[i],
{
    let p = paths[i]@;
    assert(exists|k: int| 0 <= k < paths.len() && #[trigger] paths[k]@ == p);
    let j = choose|k: int| 0 <= k < paths.len() && #[trigger] paths[k]@ == p;
    assert(j == i);
}

impl<D> View for NodeDataMap<D> {
    type V = Map<Seq<usize>, D>;

    closed spec fn view(&self) -> Map<Seq<usize>, D> {
        paths_map(self.paths@, self.values@)
    }
}

impl<D> NodeDataMap<D> {
    #[verifier::type_invariant]
    spec fn inv(self) -> bool {
        &&& self.paths@.len() == self.values@.len()
        &&& distinct_paths(self.paths@)
    }

    /// A map holding no data.
    pub fn new() -> (m: Self)
        ensures
            m@ == Map::<Seq<usize>, D>::empty(),
    {
        let m = NodeDataMap { paths: Vec::new(), values: Vec::new() };
        proof {
            assert(m@ =~= Map::<Seq<usize>, D>::empty());
        }
        m
    }

    /// The index at which `path` is stored, if it is.
    fn find(&self, path: &Vec<usize>) -> (r: Option<usize>)
        ensures
            r matches Some(i) ==> i < self.paths@.len() && self.paths@[i as int]@ == path@,
            r is None ==> !self@.contains_key(path@),
    {
        proof {
            use_type_invariant(self);
        }
        let mut i: usize = 0;
        while i < self.paths.len()
            invariant
                i <= self.paths@.len(),
                forall|k: int| 0 <= k < i ==> #[trigger] self.paths@[k]@ != path@,
            decreases self.paths@.len() - i,
        {
            if paths_eq(self.paths[i].as_slice(), path.as_slice()) {
                return Some(i);
            }
            i = i + 1;
        }
        None
    }

    /// The data of `node`, if it has any.
    pub fn get_data<S: Syntax>(&self, node: &SyntaxNode<S>) -> (r: Option<&D>)
        ensures
            r is Some <==> self@.contains_key(node@.path),
            r matches Some(d) ==> *d == self@[node@.path],
    {
        proof {
            use_type_invariant(self);
        }
        match self.find(node.path()) {
            Some(i) => {
                proof {
                    lemma_paths_map_at(self.paths@, self.values@, i as int);
                }
                Some(&self.values[i])
            },
            None => None,
        }
    }

    /// Gives `node` the data `data`, replacing any it had.
    pub fn set_data<S: Syntax>(&mut self, node: &SyntaxNode<S>, data: D)
        ensures
            final(self)@ == old(self)@.insert(node@.path, data),
    {
        let path = node.path();
        let found = self.find(path);
        let mut taken = NodeDataMap::new();
        std::mem::swap(self, &mut taken);
        proof {
            use_type_invariant(&taken);
        }
        let NodeDataMap { mut paths, mut values } = taken;
        let ghost old_paths = paths@;
        let ghost old_values = values@;
        match found {
            Some(i) => {
                values.set(i, data);
                proof {
                    let new_map = paths_map(paths@, values@);
                    let want = paths_map(old_paths, old_values).insert(path@, data);
                    assert forall|p: Seq<usize>| #[trigger] new_map.contains_key(p) == want.contains_key(p) by {
                        if want.contains_key(p) && p != path@ {
                            let k = choose|k: int| 0 <= k < old_paths.len() && #[trigger] old_paths[k]@ == p;
                            assert(paths@[k]@ == p);
                        }
                        if p == path@ {
                            assert(paths@[i as int]@ == p);
                        }
                    }
                    assert forall|p: Seq<usize>| #[trigger] new_map.contains_key(p) implies new_map[p] == want[p] by {
                        let k = choose|k: int| 0 <= k < paths@.len() && #[trigger] paths@[k]@ == p;
                        lemma_paths_map_at(paths@, values@, k);
                        lemma_paths_map_at(old_paths, old_values, k);
                    }
                    assert(new_map =~= want);
                }
            },
            None => {
                let copy = vstd::slice::slice_to_vec(path.as_slice());
                paths.push(copy);
                values.push(data);
                proof {
                    let n = old_paths.len() as int;
                    assert forall|a: int, b: int|
                        0 <= a < paths@.len() && 0 <= b < paths@.len() && a != b implies #[trigger] paths@[a]@
                        != #[trigger] paths@[b]@ by {
                        if a == n {
                            assert(old_paths[b]@ != path@);
                        } else if b == n {
                            assert(old_paths[a]@ != path@);
                        } else {
                            assert(paths@[a] == old_paths[a]);
                            assert(paths@[b] == old_paths[b]);
                        }
                    }
                    let new_map = paths_map(paths@, values@);
                    let want = paths_map(old_paths, old_values).insert(path@, data);
                    lemma_paths_map_at(paths@, values@, n);
                    assert forall|p: Seq<usize>| #[trigger] new_map.contains_key(p) == want.contains_key(p) by {
                        if want.contains_key(p) && p != path@ {
                            let k = choose|k: int| 0 <= k < old_paths.len() && #[trigger] old_paths[k]@ == p;
                            assert(paths@[k]@ == p);
                        }
                        if new_map.contains_key(p) && p != path@ {
                            let k = choose|k: int| 0 <= k < paths@.len() && #[trigger] paths@[k]@ == p;
                            assert(k != n);
                            assert(old_paths[k]@ == p);
                        }
                    }
                    assert forall|p: Seq<usize>| #[trigger] new_map.contains_key(p) implies new_map[p] == want[p] by {
                        if p != path@ {
                            let k = choose|k: int| 0 <= k < paths@.len() && #[trigger] paths@[k]@ == p;
                            assert(k != n);
                            assert(old_paths[k]@ == p);
                            lemma_paths_map_at(paths@, values@, k);
                            lemma_paths_map_at(old_paths, old_values, k);
                        }
                    }
                    assert(new_map =~= want);
                }
            },
        }
        *self = NodeDataMap { paths, values };
    }

    /// Gives `node` the data `data` if it has none, and otherwise hands `data`
    /// back and changes nothing.
    pub fn try_set_data<S: Syntax>(&mut self, node: &SyntaxNode<S>, data: D) -> (r: Result<(), D>)
        ensures
            old(self)@.contains_key(node@.path) ==> r == Err::<(), D>(data) && final(self)@ == old(self)@,
            !old(self)@.contains_key(node@.path) ==> r is Ok && final(self)@ == old(self)@.insert(node@.path, data),
    {
        match self.find(node.path()) {
            Some(i) => {
                proof {
                    use_type_invariant(&*self);
                    lemma_paths_map_at(self.paths@, self.values@, i as int);
                }
                Err(data)
            },
            None => {
                self.set_data(node, data);
                Ok(())
            },
        }
    }

    /// Removes the data of `node`, if it has any.
    pub fn clear_data<S: Syntax>(&mut self, node: &SyntaxNode<S>)
        ensures
            final(self)@ == old(self)@.remove(node@.path),
    {
        let path = node.path();
        match self.find(path) {
            Some(i) => {
                let mut taken = NodeDataMap::new();
                std::mem::swap(self, &mut taken);
                proof {
                    use_type_invariant(&taken);
                }
                let NodeDataMap { mut paths, mut values } = taken;
                let ghost old_paths = paths@;
                let ghost old_values = values@;
                paths.remove(i);
                values.remove(i);
                proof {
                    let n = i as int;
                    assert forall|k: int| 0 <= k < paths@.len() implies #[trigger] paths@[k] == old_paths[if k < n {
                        k
                    } else {
                        k + 1
                    }] && values@[k] == old_values[if k < n {
                        k
                    } else {
                        k + 1
                    }] by {}
                    assert forall|a: int, b: int|
                        0 <= a < paths@.len() && 0 <= b < paths@.len() && a != b implies #[trigger] paths@[a]@
                        != #[trigger] paths@[b]@ by {
                        let oa = if a < n { a } else { a + 1 };
                        let ob = if b < n { b } else { b + 1 };
                        assert(paths@[a] == old_paths[oa]);
                        assert(paths@[b] == old_paths[ob]);
                    }
                    let new_map = paths_map(paths@, values@);
                    let want = paths_map(old_paths, old_values).remove(path@);
                    assert forall|p: Seq<usize>| #[trigger] new_map.contains_key(p) == want.contains_key(p) by {
                        if want.contains_key(p) {
                            let k = choose|k: int| 0 <= k < old_paths.len() && #[trigger] old_paths[k]@ == p;
                            assert(k != n);
                            let nk = if k < n { k } else { k - 1 };
                            assert(paths@[nk] == old_paths[k]);
                        }
                        if new_map.contains_key(p) {
                            let k = choose|k: int| 0 <= k < paths@.len() && #[trigger] paths@[k]@ == p;
                            let ok = if k < n { k } else { k + 1 };
                            assert(paths@[k] == old_paths[ok]);
                            assert(ok != n);
                        }
                    }
                    assert forall|p: Seq<usize>| #[trigger] new_map.contains_key(p) implies new_map[p] == want[p] by {
                        let k = choose|k: int| 0 <= k < paths@.len() && #[trigger] paths@[k]@ == p;
                        let ok = if k < n { k } else { k + 1 };
                        assert(paths@[k] == old_paths[ok]);
                        lemma_paths_map_at(paths@, values@, k);
                        lemma_paths_map_at(old_paths, old_values, ok);
                    }
                    assert(new_map =~= want);
                }
                *self = NodeDataMap { paths, values };
            },
            None => {
                proof {
                    assert(old(self)@.remove(path@) =~= old(self)@);
                }
            },
        }
    }
}

/// Node data behaves as a map from nodes to values: what was last set on a
/// node is read back, a cleared node has none, and setting or clearing the
/// data of one node leaves that of every other node as it was.
pub proof fn lemma_node_data_map<D>(m: Map<Seq<usize>, D>, p: Seq<usize>, q: Seq<usize>, d: D)
    ensures
        m.insert(p, d).contains_key(p),
        m.insert(p, d)[p] == d,
        !m.remove(p).contains_key(p),
        p != q ==> m.insert(p, d).contains_key(q) == m.contains_key(q),
        p != q && m.contains_key(q) ==> m.insert(p, d)[q] == m[q],
        p != q ==> m.remove(p).contains_key(q) == m.contains_key(q),
        p != q && m.contains_key(q) ==> m.remove(p)[q] == m[q],
{
}

} // verus!
