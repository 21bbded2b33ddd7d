//! Changing a document within one transaction.

use vstd::prelude::*;
use crate::text::{grapheme_clusters, graphemes, texts};
use crate::types::{AutomergeError, ChangeHash, ExId, Prop};
use crate::value::{value_views, ScalarValue, ScalarView, Value, ValueView};

verus! {

/// The values that a text is spliced in as: one string for each of its
/// grapheme clusters, so that what a reader takes for one character is one
/// element of the sequence.
pub open spec fn cluster_values(clusters: Seq<Seq<char>>) -> Seq<ValueView> {
    clusters.map_values(|cluster: Seq<char>| ValueView::Scalar(ScalarView::Str(cluster)))
}

/// The values that `text` is spliced in as.
pub open spec fn text_values(text: Seq<char>) -> Seq<ValueView> {
    cluster_values(grapheme_clusters(text))
}

/// One string value for each cluster, in order.
pub fn values_of_clusters(clusters: &Vec<String>) -> (r: Vec<Value>)
    ensures
        value_views(r@) == cluster_values(texts(clusters@)),
{
    let mut vals: Vec<Value> = Vec::new();
    let mut i: usize = 0;
    while i < clusters.len()
        invariant
            i <= clusters.len(),
            vals@.len() == i,
            forall|k: int|
                0 <= k < i ==> (#[trigger] vals@[k])@ == ValueView::Scalar(
                    ScalarView::Str(clusters@[k]@),
                ),
        decreases clusters.len() - i,
    {
        vals.push(Value::Scalar(ScalarValue::str(clusters[i].as_str())));
        i += 1;
    }
    assert(value_views(vals@) =~= cluster_values(texts(clusters@)));
    vals
}

/// The values that `text` is spliced in as: one string value for each of
/// its grapheme clusters.
pub fn values_of_text(text: &str) -> (r: Vec<Value>)
    ensures
        value_views(r@) == text_values(text@),
{
    let clusters = graphemes(text);
    values_of_clusters(&clusters)
}

/// A way of changing a document within a single change.
pub trait Transactable {
    /// What `splice` does: it takes a transaction that stands as `self`, is
    /// asked to replace `del` elements of `obj` from `pos` on by `vals`,
    /// leaves the transaction as `after` and returns `result`. An
    /// implementation that says nothing here leaves every outcome open.
    open spec fn splices(
        &self,
        obj: ExId,
        pos: usize,
        del: usize,
        vals: Seq<ValueView>,
        after: &Self,
        result: Result<Vec<ExId>, AutomergeError>,
    ) -> bool {
        true
    }

    /// The number of pending operations in this transaction.
    fn pending_ops(&self) -> usize;

    /// Sets the value of `prop` in `obj`. Returns the name of the object that
    /// the operation created, if it created one.
    ///
    /// Fails if the object does not exist, or if the key is of the wrong kind
    /// for the object or does not exist in it.
    fn set<P: Into<Prop>, V: Into<Value>>(&mut self, obj: &ExId, prop: P, value: V) -> Result<
        Option<ExId>,
        AutomergeError,
    >;

    /// Inserts a value into a list at the given index.
    fn insert<V: Into<Value>>(&mut self, obj: &ExId, index: usize, value: V) -> Result<
        Option<ExId>,
        AutomergeError,
    >;

    /// Increments the counter at `prop` in `obj` by `value`.
    fn inc<P: Into<Prop>>(&mut self, obj: &ExId, prop: P, value: i64) -> Result<
        (),
        AutomergeError,
    >;

    /// Deletes the value at `prop` in `obj`.
    fn del<P: Into<Prop>>(&mut self, obj: &ExId, prop: P) -> Result<(), AutomergeError>;

    /// Replaces `del` elements of the sequence `obj` from `pos` on by `vals`.
    /// Returns the names of the objects that the new elements created.
    fn splice(&mut self, obj: &ExId, pos: usize, del: usize, vals: Vec<Value>) -> (r: Result<
        Vec<ExId>,
        AutomergeError,
    >)
        ensures
            old(self).splices(*obj, pos, del, value_views(vals@), final(self), r),
    ;

    /// Like `splice`, for text: the new elements are the grapheme clusters of
    /// `text`.
    fn splice_text(&mut self, obj: &ExId, pos: usize, del: usize, text: &str) -> (r: Result<
        Vec<ExId>,
        AutomergeError,
    >)
        ensures
            old(self).splices(*obj, pos, del, text_values(text@), final(self), r),
    {
        let vals = values_of_text(text);
        self.splice(obj, pos, del, vals)
    }

    /// The keys of the map `obj`.
    fn keys(&self, obj: &ExId) -> Vec<String>;

    /// The keys of the map `obj` at a point in history.
    fn keys_at(&self, obj: &ExId, heads: &[ChangeHash]) -> Vec<String>;

    /// The length of `obj`.
    fn length(&self, obj: &ExId) -> usize;

    /// The length of `obj` at a point in history.
    fn length_at(&self, obj: &ExId, heads: &[ChangeHash]) -> usize;

    /// The string that the text object `obj` spells.
    fn text(&self, obj: &ExId) -> Result<String, AutomergeError>;

    /// The string that the text object `obj` spelt at a point in history.
    fn text_at(&self, obj: &ExId, heads: &[ChangeHash]) -> Result<String, AutomergeError>;

    /// The value at `prop` in `obj`.
    fn value<P: Into<Prop>>(&self, obj: &ExId, prop: P) -> Result<
        Option<(Value, ExId)>,
        AutomergeError,
    >;

    /// The value at `prop` in `obj` at a point in history.
    fn value_at<P: Into<Prop>>(&self, obj: &ExId, prop: P, heads: &[ChangeHash]) -> Result<
        Option<(Value, ExId)>,
        AutomergeError,
    >;

    /// All values at `prop` in `obj`, the conflicting ones too.
    fn values<P: Into<Prop>>(&self, obj: &ExId, prop: P) -> Result<
        Vec<(Value, ExId)>,
        AutomergeError,
    >;

    /// All values at `prop` in `obj` at a point in history.
    fn values_at<P: Into<Prop>>(&self, obj: &ExId, prop: P, heads: &[ChangeHash]) -> Result<
        Vec<(Value, ExId)>,
        AutomergeError,
    >;
}

} // verus!
