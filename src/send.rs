//! Writing a turn's commands, and the start-up handshake.

use vstd::prelude::*;

use crate::engine::{command_text, Engine};
use crate::game::{Command, Game};

verus! {

/// The texts of the commands `cs`, one after the other.
pub open spec fn commands_text(cs: Seq<Command>) -> Seq<u8>
    decreases cs.len(),
{
    if cs.len() == 0 {
        Seq::empty()
    } else {
        commands_text(cs.drop_last()) + command_text(cs.last())
    }
}

impl Game {
    /// Let the engine know that we are ready to play: the text to send is
    /// our name and a space, then a line feed and a space.
    pub fn ready(&self, name: &[u8], engine: &mut Engine) -> (r: Vec<u8>)
        ensures
            r@ == old(engine).outgoing() + name@ + seq![32u8, 10u8, 32u8],
            final(engine).outgoing() == Seq::<u8>::empty(),
            final(engine).pending() == old(engine).pending(),
            final(engine).consumed() == old(engine).consumed(),
    {
        engine.print(name);
        let r = engine.flush();
        assert(r@ =~= old(engine).outgoing() + name@ + seq![32u8, 10u8, 32u8]);
        r
    }

    /// End the turn: the text to send is each queued command with its
    /// trailing space, in order, then a line feed and a space.
    pub fn end_turn(&self, engine: &mut Engine) -> (r: Vec<u8>)
        ensures
            r@ == old(engine).outgoing() + commands_text(self.commands@) + seq![10u8, 32u8],
            final(engine).outgoing() == Seq::<u8>::empty(),
            final(engine).pending() == old(engine).pending(),
            final(engine).consumed() == old(engine).consumed(),
    {
        let mut i: usize = 0;
        while i < self.commands.len()
            invariant
                0 <= i <= self.commands@.len(),
                engine.outgoing() == old(engine).outgoing() + commands_text(
                    self.commands@.take(i as int),
                ),
                engine.pending() == old(engine).pending(),
                engine.consumed() == old(engine).consumed(),
            decreases self.commands@.len() - i,
        {
            engine.send(&self.commands[i]);
            proof {
                assert(self.commands@.take(i + 1).drop_last() =~= self.commands@.take(i as int));
                assert(old(engine).outgoing() + commands_text(self.commands@.take(i as int))
                    + command_text(self.commands@[i as int]) =~= old(engine).outgoing()
                    + commands_text(self.commands@.take(i + 1)));
            }
            i = i + 1;
        }
        assert(self.commands@.take(self.commands@.len() as int) =~= self.commands@);
        let r = engine.flush();
        assert(r@ =~= old(engine).outgoing() + commands_text(self.commands@) + seq![10u8, 32u8]);
        r
    }
}

} // verus!
