//! The label manager of the tree parser: which node a label names, and the
//! phandle numbers handed out to referenced labels, with each label kept
//! exactly as written.
use vstd::prelude::*;

use crate::bytes::copy_bytes;
use crate::table::{
    distinct_keys, find_key, keys_of, lemma_table_map_at, lemma_table_map_push,
    lemma_table_map_update, table_map,
};

verus! {

/// What a label manager holds: label to node name, label to phandle, and the
/// last phandle handed out.
pub struct LabelView {
    pub labels: Map<Seq<u8>, Seq<u8>>,
    pub phandles: Map<Seq<u8>, u32>,
    pub current_phandle: u32,
}

/// The state after registering `label` as a name for `data`.
pub open spec fn spec_regist_label(v: LabelView, label: Seq<u8>, data: Seq<u8>) -> LabelView {
    LabelView { labels: v.labels.insert(label, data), ..v }
}

/// The phandle that `label` gets and the state after: the phandle it already
/// has, or the next number.
pub open spec fn spec_regist_phandle(v: LabelView, label: Seq<u8>) -> (LabelView, u32) {
    if v.phandles.contains_key(label) {
        (v, v.phandles[label])
    } else {
        let p = (v.current_phandle + 1) as u32;
        (LabelView { phandles: v.phandles.insert(label, p), current_phandle: p, ..v }, p)
    }
}

/// Whether a phandle can still be handed out for `label` without overflow.
pub open spec fn can_regist_phandle(v: LabelView, label: Seq<u8>) -> bool {
    v.phandles.contains_key(label) || v.current_phandle < u32::MAX
}

/// The phandle of the node that `label_name` names, if that node has one.
pub open spec fn spec_phandle_needed(v: LabelView, label_name: Seq<u8>) -> Option<u32> {
    if v.labels.contains_key(label_name) && v.phandles.contains_key(v.labels[label_name]) {
        Some(v.phandles[v.labels[label_name]])
    } else {
        None
    }
}

/// The phandles of a well-formed manager are distinct and lie in
/// `1..=current_phandle`.
pub open spec fn phandles_valid(v: LabelView) -> bool {
    &&& v.phandles.dom().finite()
    &&& forall|k: Seq<u8>|
        #![trigger v.phandles[k]]
        v.phandles.contains_key(k) ==> 1 <= v.phandles[k] <= v.current_phandle
    &&& forall|k1: Seq<u8>, k2: Seq<u8>|
        #![trigger v.phandles[k1], v.phandles[k2]]
        v.phandles.contains_key(k1) && v.phandles.contains_key(k2) && k1 != k2
            ==> v.phandles[k1] != v.phandles[k2]
}

pub struct LabelManager {
    labels: Vec<(Vec<u8>, Vec<u8>)>,
    phandles: Vec<(Vec<u8>, u32)>,
    current_phandle: u32,
}

impl View for LabelManager {
    type V = LabelView;

    closed spec fn view(&self) -> LabelView {
        LabelView {
            labels: table_map(self.labels@).map_values(|d: Vec<u8>| d@),
            phandles: table_map(self.phandles@),
            current_phandle: self.current_phandle,
        }
    }
}

impl LabelManager {
    pub closed spec fn wf(&self) -> bool {
        &&& distinct_keys(self.labels@)
        &&& distinct_keys(self.phandles@)
        &&& forall|i: int|
            0 <= i < self.phandles@.len() ==> 1 <= #[trigger] self.phandles@[i].1
                <= self.current_phandle
        &&& forall|i: int, j: int|
            0 <= i < self.phandles@.len() && 0 <= j < self.phandles@.len() && i != j
                ==> #[trigger] self.phandles@[i].1 != #[trigger] self.phandles@[j].1
    }

    pub fn new() -> (r: Self)
        ensures
            r.wf(),
            r@.labels == Map::<Seq<u8>, Seq<u8>>::empty(),
            r@.phandles == Map::<Seq<u8>, u32>::empty(),
            r@.current_phandle == 0,
    {
        let r = LabelManager { labels: Vec::new(), phandles: Vec::new(), current_phandle: 0 };
        assert(r@.labels =~= Map::<Seq<u8>, Seq<u8>>::empty());
        assert(r@.phandles =~= Map::<Seq<u8>, u32>::empty());
        r
    }

    /// Records that `label` names the node `data`; a label given twice keeps
    /// the last node.
    pub fn regist_label(&mut self, label: Vec<u8>, data: Vec<u8>)
        requires
            old(self).wf(),
        ensures
            final(self).wf(),
            final(self)@ == spec_regist_label(old(self)@, label@, data@),
    {
        let ghost k = label@;
        let ghost d = data@;
        match find_key(&self.labels, label.as_slice()) {
            Some(i) => {
                proof {
                    lemma_table_map_update(self.labels@, i as int, label, data);
                }
                self.labels.set(i, (label, data));
            },
            None => {
                proof {
                    lemma_table_map_push(self.labels@, label, data);
                }
                self.labels.push((label, data));
            },
        }
        assert(self@.labels =~= old(self)@.labels.insert(k, d));
    }

    /// The phandle of `label`: the one it was given before, or a new one, one
    /// above the last handed out.
    pub fn regist_phandle(&mut self, label: &[u8]) -> (r: u32)
        requires
            old(self).wf(),
            can_regist_phandle(old(self)@, label@),
        ensures
            final(self).wf(),
            (final(self)@, r) == spec_regist_phandle(old(self)@, label@),
    {
        match find_key(&self.phandles, label) {
            Some(i) => {
                proof {
                    lemma_table_map_at(self.phandles@, i as int);
                }
                self.phandles[i].1
            },
            None => {
                proof {
                    if self@.phandles.contains_key(label@) {
                        assert(keys_of(self.phandles@).contains(label@));
                    }
                }
                let p = self.current_phandle + 1;
                let key = copy_bytes(label);
                proof {
                    lemma_table_map_push(self.phandles@, key, p);
                }
                self.current_phandle = p;
                self.phandles.push((key, p));
                p
            },
        }
    }

    /// Whether a phandle can be handed out for `label` without overflow.
    pub fn can_regist_phandle(&self, label: &[u8]) -> (r: bool)
        requires
            self.wf(),
        ensures
            r == can_regist_phandle(self@, label@),
    {
        match find_key(&self.phandles, label) {
            Some(i) => {
                proof {
                    lemma_table_map_at(self.phandles@, i as int);
                }
                true
            },
            None => {
                proof {
                    if self@.phandles.contains_key(label@) {
                        assert(keys_of(self.phandles@).contains(label@));
                    }
                }
                self.current_phandle < 0xffff_ffff
            },
        }
    }

    /// The node that `label` names.
    pub fn lookup(&self, label: &[u8]) -> (r: Option<Vec<u8>>)
        requires
            self.wf(),
        ensures
            match r {
                Some(d) => self@.labels.contains_key(label@) && d@ == self@.labels[label@],
                None => !self@.labels.contains_key(label@),
            },
    {
        match find_key(&self.labels, label) {
            Some(i) => {
                proof {
                    lemma_table_map_at(self.labels@, i as int);
                }
                Some(copy_bytes(self.labels[i].1.as_slice()))
            },
            None => None,
        }
    }

    /// The phandle of the node that `label_name` names, if it has one.
    pub fn is_phandle_needed(&self, label_name: &[u8]) -> (r: Option<u32>)
        requires
            self.wf(),
        ensures
            r == spec_phandle_needed(self@, label_name@),
    {
        match self.lookup(label_name) {
            Some(node) => match find_key(&self.phandles, node.as_slice()) {
                Some(i) => {
                    proof {
                        lemma_table_map_at(self.phandles@, i as int);
                    }
                    Some(self.phandles[i].1)
                },
                None => None,
            },
            None => None,
        }
    }
}

/// A well-formed manager gives distinct labels distinct phandles, each in
/// `1..=current_phandle`.
pub proof fn lemma_phandles_valid(m: LabelManager)
    requires
        m.wf(),
    ensures
        phandles_valid(m@),
{
    let s = m.phandles@;
    let mp = table_map(s);
    assert(mp.dom() =~= keys_of(s).to_set());
    keys_of(s).lemma_cardinality_of_set();
    assert forall|k: Seq<u8>| #![trigger mp[k]] mp.contains_key(k) implies 1 <= mp[k]
        <= m.current_phandle by {
        let i = keys_of(s).index_of(k);
        assert(keys_of(s)[i] == k);
        lemma_table_map_at(s, i);
    }
    assert forall|k1: Seq<u8>, k2: Seq<u8>|
        #![trigger mp[k1], mp[k2]]
        mp.contains_key(k1) && mp.contains_key(k2) && k1 != k2 implies mp[k1] != mp[k2] by {
        let i = keys_of(s).index_of(k1);
        let j = keys_of(s).index_of(k2);
        assert(keys_of(s)[i] == k1);
        assert(keys_of(s)[j] == k2);
        lemma_table_map_at(s, i);
        lemma_table_map_at(s, j);
    }
}

/// Registering the same label twice gives the same phandle and leaves the
/// state of the first registration unchanged; the second call is always
/// allowed, as the label then has its phandle.
pub proof fn lemma_regist_phandle_idempotent(v: LabelView, label: Seq<u8>)
    ensures
        can_regist_phandle(spec_regist_phandle(v, label).0, label),
        spec_regist_phandle(spec_regist_phandle(v, label).0, label) == spec_regist_phandle(
            v,
            label,
        ),
{
}

/// Two different labels registered one after the other get different
/// phandles.
pub proof fn lemma_regist_phandle_distinct(v: LabelView, a: Seq<u8>, b: Seq<u8>)
    requires
        phandles_valid(v),
        can_regist_phandle(v, a),
        can_regist_phandle(spec_regist_phandle(v, a).0, b),
        a != b,
    ensures
        spec_regist_phandle(v, a).1 != spec_regist_phandle(spec_regist_phandle(v, a).0, b).1,
{
    let v1 = spec_regist_phandle(v, a).0;
    if v.phandles.contains_key(a) && v.phandles.contains_key(b) {
        assert(v.phandles[a] != v.phandles[b]);
    }
    if v.phandles.contains_key(b) {
        assert(v.phandles[b] <= v.current_phandle);
    }
    if v.phandles.contains_key(a) && !v.phandles.contains_key(b) {
        assert(v.phandles[a] <= v.current_phandle);
    }
}

/// Looking up a label just registered gives the node it was registered for.
pub proof fn lemma_lookup_after_regist(v: LabelView, label: Seq<u8>, data: Seq<u8>)
    ensures
        spec_regist_label(v, label, data).labels.contains_key(label),
        spec_regist_label(v, label, data).labels[label] == data,
{
}

/// A label keeps its phandle: registering any label leaves every phandle
/// already handed out in place, and never lowers the last one handed out.
pub proof fn lemma_regist_phandle_keeps(v: LabelView, label: Seq<u8>, other: Seq<u8>)
    requires
        v.phandles.contains_key(other),
        can_regist_phandle(v, label),
    ensures
        spec_regist_phandle(v, label).0.phandles.contains_key(other),
        spec_regist_phandle(v, label).0.phandles[other] == v.phandles[other],
        spec_regist_phandle(v, label).0.current_phandle >= v.current_phandle,
        spec_regist_phandle(v, label).0.labels == v.labels,
{
}

/// A call on a label manager: `Label(label, node)` registers a label for a
/// node, `Phandle(label)` asks for the phandle of a label.
pub enum LabelOp {
    Label(Seq<u8>, Seq<u8>),
    Phandle(Seq<u8>),
}

/// The state after the calls `ops`, in order.
pub open spec fn apply_label_ops(v: LabelView, ops: Seq<LabelOp>) -> LabelView
    decreases ops.len(),
{
    if ops.len() == 0 {
        v
    } else {
        let w = apply_label_ops(v, ops.drop_last());
        match ops.last() {
            LabelOp::Label(l, d) => spec_regist_label(w, l, d),
            LabelOp::Phandle(l) => spec_regist_phandle(w, l).0,
        }
    }
}

/// The node of the last `Label` call for label `x` among `ops`.
pub open spec fn last_label_data(ops: Seq<LabelOp>, x: Seq<u8>) -> Option<Seq<u8>>
    decreases ops.len(),
{
    if ops.len() == 0 {
        None
    } else {
        match ops.last() {
            LabelOp::Label(l, d) => if l == x {
                Some(d)
            } else {
                last_label_data(ops.drop_last(), x)
            },
            LabelOp::Phandle(_) => last_label_data(ops.drop_last(), x),
        }
    }
}

/// From a manager without labels, after any calls, a lookup of `x` finds the
/// node of the last `Label` call for `x`, and nothing when there is none.
pub proof fn lemma_lookup_after_calls(v: LabelView, ops: Seq<LabelOp>, x: Seq<u8>)
    requires
        v.labels == Map::<Seq<u8>, Seq<u8>>::empty(),
    ensures
        apply_label_ops(v, ops).labels.contains_key(x) == last_label_data(ops, x) is Some,
        last_label_data(ops, x) matches Some(d) ==> apply_label_ops(v, ops).labels[x] == d,
    decreases ops.len(),
{
    if ops.len() > 0 {
        lemma_lookup_after_calls(v, ops.drop_last(), x);
    }
}

/// The phandle that a label needs is that of the node it names: it is
/// `Some(p)` only for a registered label whose node name has phandle `p`, and
/// `None` whenever that node name has none, whatever phandle the label itself
/// holds.
pub proof fn lemma_phandle_needed_is_the_nodes(v: LabelView, l: Seq<u8>)
    ensures
        spec_phandle_needed(v, l) matches Some(p) ==> v.labels.contains_key(l)
            && v.phandles.contains_key(v.labels[l]) && p == v.phandles[v.labels[l]],
        !v.labels.contains_key(l) ==> spec_phandle_needed(v, l) is None,
        v.labels.contains_key(l) && !v.phandles.contains_key(v.labels[l]) ==> spec_phandle_needed(
            v,
            l,
        ) is None,
        v.labels.contains_key(l) && v.phandles.contains_key(v.labels[l]) ==> spec_phandle_needed(
            v,
            l,
        ) == Some(v.phandles[v.labels[l]]),
{
}

/// After a label is registered for a node of another name and the label
/// itself is given a phandle, the label needs no phandle while the node has
/// none; once the node name has a phandle, that one is needed.
pub proof fn lemma_phandle_needed_after_calls(v: LabelView, l: Seq<u8>, node: Seq<u8>)
    requires
        l != node,
        !v.phandles.contains_key(node),
    ensures
        ({
            let w = spec_regist_phandle(spec_regist_label(v, l, node), l).0;
            &&& spec_phandle_needed(w, l) is None
            &&& spec_phandle_needed(spec_regist_phandle(w, node).0, l) == Some(
                spec_regist_phandle(w, node).1,
            )
        }),
{
}

} // verus!
