//! The label manager that trims labels: a label is registered without its
//! leading whitespace, so `"  foo"` and `"foo"` name the same entry.
use vstd::prelude::*;

use crate::bytes::{trim_start_whitespace, trim_start_ws};
use crate::tree_labels;
use crate::tree_labels::{LabelOp, LabelView};

verus! {

/// The state after registering `label`, without its leading whitespace, as a
/// name for `data`.
pub open spec fn spec_regist_label(v: LabelView, label: Seq<u8>, data: Seq<u8>) -> LabelView {
    tree_labels::spec_regist_label(v, trim_start_ws(label), data)
}

/// The phandle of `label`, without its leading whitespace, and the state
/// after: the phandle it already has, or the next number.
pub open spec fn spec_regist_phandle(v: LabelView, label: Seq<u8>) -> (LabelView, u32) {
    tree_labels::spec_regist_phandle(v, trim_start_ws(label))
}

/// Whether a phandle can still be handed out for `label` without overflow.
pub open spec fn can_regist_phandle(v: LabelView, label: Seq<u8>) -> bool {
    tree_labels::can_regist_phandle(v, trim_start_ws(label))
}

pub struct LabelManager {
    inner: tree_labels::LabelManager,
}

impl View for LabelManager {
    type V = LabelView;

    closed spec fn view(&self) -> LabelView {
        self.inner@
    }
}

impl LabelManager {
    pub closed spec fn wf(&self) -> bool {
        self.inner.wf()
    }

    pub fn new() -> (r: Self)
        ensures
            r.wf(),
            r@.labels == Map::<Seq<u8>, Seq<u8>>::empty(),
            r@.phandles == Map::<Seq<u8>, u32>::empty(),
            r@.current_phandle == 0,
    {
        LabelManager { inner: tree_labels::LabelManager::new() }
    }

    /// Records that `label`, without its leading whitespace, names the node
    /// `data`; a label given twice keeps the last node.
    pub fn regist_label(&mut self, label: &[u8], data: Vec<u8>)
        requires
            old(self).wf(),
        ensures
            final(self).wf(),
            final(self)@ == spec_regist_label(old(self)@, label@, data@),
    {
        let key = trim_start_whitespace(label);
        self.inner.regist_label(key, data);
    }

    /// The phandle of `label`, without its leading whitespace: the one it was
    /// given before, or a new one, one above the last handed out.
    pub fn regist_phandle(&mut self, label: &[u8]) -> (r: u32)
        requires
            old(self).wf(),
            can_regist_phandle(old(self)@, label@),
        ensures
            final(self).wf(),
            (final(self)@, r) == spec_regist_phandle(old(self)@, label@),
    {
        let key = trim_start_whitespace(label);
        self.inner.regist_phandle(key.as_slice())
    }

    /// Whether a phandle can be handed out for `label` without overflow.
    pub fn can_regist_phandle(&self, label: &[u8]) -> (r: bool)
        requires
            self.wf(),
        ensures
            r == can_regist_phandle(self@, label@),
    {
        let key = trim_start_whitespace(label);
        self.inner.can_regist_phandle(key.as_slice())
    }

    /// The node that `label` names; the label is looked up as given.
    pub fn lookup(&self, label: &[u8]) -> (r: Option<Vec<u8>>)
        requires
            self.wf(),
        ensures
            match r {
                Some(d) => self@.labels.contains_key(label@) && d@ == self@.labels[label@],
                None => !self@.labels.contains_key(label@),
            },
    {
        self.inner.lookup(label)
    }

    /// The phandle of the node that `label_name` names, if it has one.
    pub fn is_phandle_needed(&self, label_name: &[u8]) -> (r: Option<u32>)
        requires
            self.wf(),
        ensures
            r == tree_labels::spec_phandle_needed(self@, label_name@),
    {
        self.inner.is_phandle_needed(label_name)
    }
}

/// A well-formed manager gives distinct labels distinct phandles, each in
/// `1..=current_phandle`.
pub proof fn lemma_phandles_valid(m: LabelManager)
    requires
        m.wf(),
    ensures
        tree_labels::phandles_valid(m@),
{
    tree_labels::lemma_phandles_valid(m.inner);
}

/// Registering a label twice, with or without leading whitespace, gives the
/// same phandle and leaves the state of the first registration unchanged.
pub proof fn lemma_regist_phandle_idempotent(v: LabelView, label: Seq<u8>, again: Seq<u8>)
    requires
        trim_start_ws(again) == trim_start_ws(label),
    ensures
        can_regist_phandle(spec_regist_phandle(v, label).0, again),
        spec_regist_phandle(spec_regist_phandle(v, label).0, again) == spec_regist_phandle(
            v,
            label,
        ),
{
    tree_labels::lemma_regist_phandle_idempotent(v, trim_start_ws(label));
}

/// Two labels that differ after trimming get different phandles.
pub proof fn lemma_regist_phandle_distinct(v: LabelView, a: Seq<u8>, b: Seq<u8>)
    requires
        tree_labels::phandles_valid(v),
        can_regist_phandle(v, a),
        can_regist_phandle(spec_regist_phandle(v, a).0, b),
        trim_start_ws(a) != trim_start_ws(b),
    ensures
        spec_regist_phandle(v, a).1 != spec_regist_phandle(spec_regist_phandle(v, a).0, b).1,
{
    tree_labels::lemma_regist_phandle_distinct(v, trim_start_ws(a), trim_start_ws(b));
}

/// The state after the calls `ops`, in order, each label trimmed.
pub open spec fn apply_trimmed_ops(v: LabelView, ops: Seq<LabelOp>) -> LabelView
    decreases ops.len(),
{
    if ops.len() == 0 {
        v
    } else {
        let w = apply_trimmed_ops(v, ops.drop_last());
        match ops.last() {
            LabelOp::Label(l, d) => spec_regist_label(w, l, d),
            LabelOp::Phandle(l) => spec_regist_phandle(w, l).0,
        }
    }
}

/// The node of the last `Label` call among `ops` whose trimmed label is `x`.
pub open spec fn last_trimmed_label_data(ops: Seq<LabelOp>, x: Seq<u8>) -> Option<Seq<u8>>
    decreases ops.len(),
{
    if ops.len() == 0 {
        None
    } else {
        match ops.last() {
            LabelOp::Label(l, d) => if trim_start_ws(l) == x {
                Some(d)
            } else {
                last_trimmed_label_data(ops.drop_last(), x)
            },
            LabelOp::Phandle(_) => last_trimmed_label_data(ops.drop_last(), x),
        }
    }
}

/// From a manager without labels, after any calls, a lookup of `x` finds the
/// node of the last `Label` call whose label trims to `x`, and nothing when
/// there is none.
pub proof fn lemma_lookup_after_calls(v: LabelView, ops: Seq<LabelOp>, x: Seq<u8>)
    requires
        v.labels == Map::<Seq<u8>, Seq<u8>>::empty(),
    ensures
        apply_trimmed_ops(v, ops).labels.contains_key(x) == last_trimmed_label_data(ops, x) is Some,
        last_trimmed_label_data(ops, x) matches Some(d) ==> apply_trimmed_ops(v, ops).labels[x]
            == d,
    decreases ops.len(),
{
    if ops.len() > 0 {
        lemma_lookup_after_calls(v, ops.drop_last(), x);
    }
}

} // verus!
