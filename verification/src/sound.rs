//! Sound requests queued by gameplay and drained by the audio layer.

use vstd::prelude::*;

verus! {

/// One sound the game asks the audio layer to play.
#[derive(Copy, Clone, Debug, PartialEq, Eq, Structural, Hash)]
pub enum SoundRequest {
    PlayerShot,
    PlayerDeath,
    EnemyShot,
    EnemyDeath,
    BossShot,
    BossDeath,
    Pause,
}

/// The queue of sounds requested this tick.
#[derive(Debug, Clone)]
pub struct SoundQueue {
    events: Vec<SoundRequest>,
}

impl SoundQueue {
    pub fn new() -> (q: SoundQueue)
        ensures
            q@ == Seq::<SoundRequest>::empty(),
    {
        SoundQueue { events: Vec::new() }
    }

    /// Appends one request to the queue.
    pub fn enqueue(&mut self, event: SoundRequest)
        ensures
            final(self)@ == old(self)@.push(event),
    {
        self.events.push(event);
    }

    /// Empties the queue, as the audio layer does after a drain.
    pub fn clear(&mut self)
        ensures
            final(self)@ == Seq::<SoundRequest>::empty(),
    {
        self.events.clear();
    }

    pub fn len(&self) -> (n: usize)
        ensures
            n == self@.len(),
    {
        self.events.len()
    }

    /// The queued request at `index`.
    pub fn get(&self, index: usize) -> (e: SoundRequest)
        requires
            index < self@.len(),
        ensures
            e == self@[index as int],
    {
        self.events[index]
    }
}

impl View for SoundQueue {
    type V = Seq<SoundRequest>;

    closed spec fn view(&self) -> Seq<SoundRequest> {
        self.events@
    }
}

impl Default for SoundQueue {
    fn default() -> (q: SoundQueue)
        ensures
            q@ == Seq::<SoundRequest>::empty(),
    {
        SoundQueue::new()
    }
}

} // verus!
