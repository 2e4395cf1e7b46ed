//! The banner notifier: a message with a frame countdown. Rendering the
//! animated banner is host work; the state machine lives here.

use vstd::prelude::*;
use vstd::string::StringExecFns;

verus! {

/// A transient on-screen message and the frames it has left.
pub struct Notifier {
    pub msg: String,
    pub timer: i32,
    pub timer_start: i32,
}

impl Default for Notifier {
    fn default() -> (r: Self)
        ensures
            r.msg@ == Seq::<char>::empty(),
            r.timer == 0,
            r.timer_start == 0,
    {
        Notifier { msg: String::new(), timer: 0, timer_start: 0 }
    }
}

impl Notifier {
    /// Show `msg` for `time` frames, restarting the animation.
    pub fn notify(&mut self, msg: &str, time: i32)
        ensures
            final(self).msg@ == msg@,
            final(self).timer == time,
            final(self).timer_start == time,
    {
        self.msg = String::from_str(msg);
        self.timer_start = time;
        self.timer = time;
    }

    /// Count down the timer by one frame, never below zero.
    pub fn countdown(&mut self)
        ensures
            final(self).timer as int == (if old(self).timer > 0 {
                old(self).timer - 1
            } else {
                0
            }),
            final(self).msg == old(self).msg,
            final(self).timer_start == old(self).timer_start,
    {
        self.timer = if self.timer > 0 {
            self.timer - 1
        } else {
            0
        };
    }

    /// The message currently shown.
    pub fn message(&self) -> (r: &str)
        ensures
            r@ == self.msg@,
    {
        self.msg.as_str()
    }

    /// Frames the current message has left.
    pub fn timer(&self) -> (r: i32)
        ensures
            r == self.timer,
    {
        self.timer
    }

    /// Frame count the current message started from.
    pub fn timer_start(&self) -> (r: i32)
        ensures
            r == self.timer_start,
    {
        self.timer_start
    }
}

} // verus!
