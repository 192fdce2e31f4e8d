//! The single writer of the output grid: it takes row results in whatever
//! order they arrive and stops after one message per row.

use vstd::prelude::*;
use crate::grid::{Grid, GridView};
use crate::kernel::RowResult;

verus! {

/// The grid that results from writing the messages into `start` one after
/// another.
pub open spec fn collected(start: GridView, messages: Seq<RowResult>) -> GridView
    decreases messages.len(),
{
    if messages.len() == 0 {
        start
    } else {
        collected(start, messages.drop_last()).with_row(
            messages.last().row as int,
            messages.last().values@,
        )
    }
}

/// The output grid under construction together with the number of messages
/// still awaited.
pub struct Collector {
    output: Grid,
    pending: usize,
}

impl Collector {
    /// The output grid as written so far.
    pub closed spec fn output(&self) -> GridView {
        self.output@
    }

    /// The number of messages still to be consumed.
    pub closed spec fn remaining(&self) -> nat {
        self.pending as nat
    }

    /// A collector for the results of filtering `input`: its output has the
    /// shape and marker of `input` with every cell missing, and it awaits one
    /// message per row.
    pub fn new(input: &Grid) -> (collector: Collector)
        ensures
            collector.output() == input@.blank(),
            collector.remaining() == input@.height(),
    {
        Collector { output: input.like(), pending: input.rows() }
    }

    pub fn pending(&self) -> (n: usize)
        ensures
            n == self.remaining(),
    {
        self.pending
    }

    /// Whether every awaited message has been consumed.
    pub fn is_complete(&self) -> (done: bool)
        ensures
            done == (self.remaining() == 0),
    {
        self.pending == 0
    }

    /// Takes one message. While messages are awaited it is consumed: its
    /// values are written into the row it names and one message fewer is
    /// awaited. Once the collector is complete nothing is consumed and
    /// nothing changes.
    pub fn accept(&mut self, message: &RowResult) -> (consumed: bool)
        ensures
            consumed == (old(self).remaining() > 0),
            consumed ==> final(self).output() == old(self).output().with_row(
                message.row as int,
                message.values@,
            ) && final(self).remaining() == old(self).remaining() - 1,
            !consumed ==> final(self).output() == old(self).output() && final(self).remaining()
                == old(self).remaining(),
    {
        if self.pending == 0 {
            return false;
        }
        self.output.set_row(message.row, &message.values);
        self.pending = self.pending - 1;
        true
    }

    /// Takes messages from the front of `messages` for as long as messages
    /// are awaited, and returns how many were consumed: all of them, or as
    /// many as were still awaited if that is fewer.
    pub fn accept_all(&mut self, messages: &Vec<RowResult>) -> (consumed: usize)
        ensures
            consumed == (if old(self).remaining() <= messages@.len() {
                old(self).remaining()
            } else {
                messages@.len()
            }),
            final(self).remaining() == old(self).remaining() - consumed,
            final(self).output() == collected(old(self).output(), messages@.take(consumed as int)),
    {
        let mut i: usize = 0;
        while i < messages.len() && !self.is_complete()
            invariant
                i <= messages@.len(),
                i <= old(self).remaining(),
                self.remaining() == old(self).remaining() - i,
                self.output() == collected(old(self).output(), messages@.take(i as int)),
            decreases messages@.len() - i,
        {
            proof {
                assert(messages@.take(i + 1).drop_last() =~= messages@.take(i as int));
                assert(messages@.take(i + 1).last() == messages@[i as int]);
            }
            let consumed = self.accept(&messages[i]);
            i = i + 1;
        }
        i
    }

    /// Hands over the output grid once every awaited message has been
    /// consumed, and nothing before that.
    pub fn finish(self) -> (output: Option<Grid>)
        ensures
            output.is_some() <==> self.remaining() == 0,
            output matches Some(grid) ==> grid@ == self.output(),
    {
        if self.pending == 0 {
            Some(self.output)
        } else {
            None
        }
    }
}

} // verus!
