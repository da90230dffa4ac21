//! Which colour a series is drawn in.

use std::collections::hash_map::DefaultHasher;
use std::hash::{Hash, Hasher};

use vstd::prelude::*;
use vstd::std_specs::hash::DefaultHasherAdditionalSpecFns;

use crate::model::graph::{GraphModel, GraphState};
use crate::order::Key;
use crate::protocol::Text;

verus! {

/// What a hasher has been fed after `String::hash` fed it a text, where
/// `before` is what it had been fed before.
pub uninterp spec fn text_fed(before: Seq<Seq<u8>>, text: Seq<char>) -> Seq<Seq<u8>>;

/// `String::hash` feeds the hasher something that only the characters
/// determine. What that is, is left unsaid.
#[verifier::external_body]
fn feed_text(state: &mut DefaultHasher, s: &String)
    ensures
        final(state)@ == text_fed(old(state)@, s@),
{
    s.hash(state)
}

/// What a hasher has been fed after some texts in turn.
pub open spec fn texts_fed(before: Seq<Seq<u8>>, texts: Seq<Text>) -> Seq<Seq<u8>>
    decreases texts.len(),
{
    if texts.len() == 0 {
        before
    } else {
        text_fed(texts_fed(before, texts.drop_last()), texts.last())
    }
}

/// What a hasher has been fed after the halves of some pairs in turn.
pub open spec fn pairs_fed(before: Seq<Seq<u8>>, pairs: Seq<(Text, Text)>) -> Seq<Seq<u8>>
    decreases pairs.len(),
{
    if pairs.len() == 0 {
        before
    } else {
        text_fed(
            text_fed(pairs_fed(before, pairs.drop_last()), pairs.last().0),
            pairs.last().1,
        )
    }
}

/// The colour of a series: the hash of the stack and of the split values,
/// which the drawing takes modulo the size of its palette.
pub open spec fn color_of(stack: Seq<Text>, key: Seq<(Text, Text)>) -> usize {
    DefaultHasher::spec_finish(pairs_fed(texts_fed(Seq::empty(), stack), key)) as usize
}

impl GraphState {
    /// The colour of the series with the given key.
    pub fn color_index_of(&self, key: &Vec<(String, String)>) -> (r: usize)
        ensures
            r == color_of(self@.locked_stack, key.model()),
    {
        let ghost stack = self.locked_stack.model();
        let mut hasher = DefaultHasher::new();
        let mut i: usize = 0;
        assert(stack.take(0) =~= Seq::empty());
        while i < self.locked_stack.len()
            invariant
                i <= self.locked_stack@.len(),
                stack == self.locked_stack.model(),
                hasher@ == texts_fed(Seq::empty(), stack.take(i as int)),
            decreases self.locked_stack@.len() - i,
        {
            feed_text(&mut hasher, &self.locked_stack[i]);
            proof {
                assert(stack.take(i + 1).drop_last() =~= stack.take(i as int));
                assert(stack.take(i + 1).last() == self.locked_stack@[i as int]@);
            }
            i = i + 1;
        }
        assert(stack.take(i as int) =~= stack);
        let ghost after_stack = hasher@;
        let ghost pairs = key.model();
        let mut j: usize = 0;
        assert(pairs.take(0) =~= Seq::empty());
        while j < key.len()
            invariant
                j <= key@.len(),
                pairs == key.model(),
                hasher@ == pairs_fed(after_stack, pairs.take(j as int)),
            decreases key@.len() - j,
        {
            feed_text(&mut hasher, &key[j].0);
            feed_text(&mut hasher, &key[j].1);
            proof {
                assert(pairs.take(j + 1).drop_last() =~= pairs.take(j as int));
                assert(pairs.take(j + 1).last() == key@[j as int].model());
            }
            j = j + 1;
        }
        assert(pairs.take(j as int) =~= pairs);
        #[verifier::truncate]
        let slot: usize = hasher.finish() as usize;
        slot
    }
}

/// A series keeps its colour whatever else the graph shows, and whenever the
/// graph of the same stack is entered again.
pub proof fn series_keep_their_color(a: GraphModel, b: GraphModel, key: Seq<(Text, Text)>)
    requires
        a.locked_stack == b.locked_stack,
    ensures
        color_of(a.locked_stack, key) == color_of(b.locked_stack, key),
{
}

} // verus!
