//! A framed connection: what is waiting to go out, what has come in, and what
//! each answer of the socket makes of them.

use vstd::prelude::*;
use vstd::string::*;

use crate::net::frame;
use crate::net::frame::{encode, Inbox};

verus! {

/// What the socket made of an attempt to write.
#[derive(Debug)]
pub enum Wrote {
    /// It took this many of the bytes in front.
    Taken(usize),
    /// It takes nothing now.
    Full,
    /// The attempt was interrupted.
    Interrupted,
    /// It failed, for this reason.
    Broken(String),
}

/// What the socket made of an attempt to read.
#[derive(Debug)]
pub enum Got {
    /// These bytes arrived. None at all is the end of the stream.
    Bytes(Vec<u8>),
    /// There is nothing now.
    Nothing,
    /// The attempt was interrupted.
    Interrupted,
    /// It failed, for this reason.
    Broken(String),
}

/// What to do next.
#[derive(Debug)]
pub enum Next {
    /// Try again.
    Again,
    /// This is done for now.
    Done,
    /// The connection is of no more use, for this reason.
    Lost(String),
}

/// What to do next, as a mathematical value.
pub enum Course {
    Again,
    Done,
    Lost(Seq<char>),
}

impl View for Next {
    type V = Course;

    open spec fn view(&self) -> Course {
        match *self {
            Next::Again => Course::Again,
            Next::Done => Course::Done,
            Next::Lost(m) => Course::Lost(m@),
        }
    }
}

/// A connection, without its socket.
#[derive(Debug)]
pub struct Connection {
    inbox: Inbox,
    outbox: Vec<u8>,
    closed: bool,
}

/// A connection, as a mathematical value.
#[verifier::ext_equal]
pub struct Line {
    /// Bytes that have arrived and are not yet read.
    pub arrived: Seq<u8>,
    /// Bytes that are still to go out.
    pub unsent: Seq<u8>,
    pub closed: bool,
}

impl View for Connection {
    type V = Line;

    closed spec fn view(&self) -> Line {
        Line { arrived: self.inbox@, unsent: self.outbox@, closed: self.closed }
    }
}

/// A connection after an attempt to write, and what to do next.
pub open spec fn written(l: Line, w: Wrote) -> (Line, Course) {
    match w {
        Wrote::Taken(n) => if n == 0 {
            (
                Line { closed: true, ..l },
                Course::Lost("net: the peer closed the connection"@),
            )
        } else {
            (
                Line { unsent: l.unsent.skip(n as int), ..l },
                if n == l.unsent.len() {
                    Course::Done
                } else {
                    Course::Again
                },
            )
        },
        Wrote::Full => (l, Course::Done),
        Wrote::Interrupted => (l, Course::Again),
        Wrote::Broken(e) => (
            Line { closed: true, ..l },
            Course::Lost("net: send failed: "@ + e@),
        ),
    }
}

/// A connection after an attempt to read, and what to do next.
pub open spec fn read(l: Line, g: Got) -> (Line, Course) {
    match g {
        Got::Bytes(b) => if b@.len() == 0 {
            (Line { closed: true, ..l }, Course::Done)
        } else {
            (Line { arrived: l.arrived + b@, ..l }, Course::Again)
        },
        Got::Nothing => (l, Course::Done),
        Got::Interrupted => (l, Course::Again),
        Got::Broken(e) => (
            Line { closed: true, ..l },
            Course::Lost("net: receive failed: "@ + e@),
        ),
    }
}

impl Default for Connection {
    fn default() -> (r: Self)
        ensures
            r@ == (Line { arrived: Seq::empty(), unsent: Seq::empty(), closed: false }),
    {
        Connection { inbox: Inbox::default(), outbox: Vec::new(), closed: false }
    }
}

impl Connection {
    /// Put a text on its way. One that does not fit into a frame is refused.
    pub fn send(&mut self, s: &str) -> (r: Result<(), String>)
        ensures
            match r {
                Ok(_) => frame::text_bytes(s@).len() <= u32::MAX && final(self)@ == (Line {
                    unsent: old(self)@.unsent + frame::framed(s@),
                    ..old(self)@
                }),
                Err(m) => frame::text_bytes(s@).len() > u32::MAX && m@ == "net: frame too large"@
                    && final(self)@ == old(self)@,
            },
    {
        match encode(s) {
            Ok(bytes) => {
                let mut bytes = bytes;
                self.outbox.append(&mut bytes);
                Ok(())
            },
            Err(m) => Err(m),
        }
    }

    /// The bytes that are still to go out.
    pub fn unsent(&self) -> (r: &Vec<u8>)
        ensures
            r@ == self@.unsent,
    {
        &self.outbox
    }

    /// Has the connection come to its end?
    pub fn is_closed(&self) -> (r: bool)
        ensures
            r == self@.closed,
    {
        self.closed
    }

    /// Enter what the socket made of the unsent bytes.
    pub fn wrote(&mut self, w: Wrote) -> (r: Next)
        requires
            w matches Wrote::Taken(n) ==> n <= old(self)@.unsent.len(),
        ensures
            (final(self)@, r@) == written(old(self)@, w),
    {
        match w {
            Wrote::Taken(n) => {
                if n == 0 {
                    self.closed = true;
                    return Next::Lost("net: the peer closed the connection".to_owned());
                }
                let rest: Vec<u8> = self.outbox.split_off(n);
                proof {
                    assert(rest@ =~= old(self)@.unsent.skip(n as int));
                }
                self.outbox = rest;
                if self.outbox.len() == 0 {
                    Next::Done
                } else {
                    Next::Again
                }
            },
            Wrote::Full => Next::Done,
            Wrote::Interrupted => Next::Again,
            Wrote::Broken(e) => {
                self.closed = true;
                let mut m: String = "net: send failed: ".to_owned();
                m.append(e.as_str());
                Next::Lost(m)
            },
        }
    }

    /// Enter what the socket had.
    pub fn got(&mut self, g: Got) -> (r: Next)
        ensures
            (final(self)@, r@) == read(old(self)@, g),
    {
        match g {
            Got::Bytes(b) => {
                if b.len() == 0 {
                    self.closed = true;
                    return Next::Done;
                }
                self.inbox.feed(b.as_slice());
                Next::Again
            },
            Got::Nothing => Next::Done,
            Got::Interrupted => Next::Again,
            Got::Broken(e) => {
                self.closed = true;
                let mut m: String = "net: receive failed: ".to_owned();
                m.append(e.as_str());
                Next::Lost(m)
            },
        }
    }

    /// The text of the frame in front, if a whole one has arrived.
    pub fn next_text(&mut self) -> (r: Result<Option<String>, String>)
        ensures
            final(self)@ == (Line { arrived: final(self)@.arrived, ..old(self)@ }),
            match r {
                Ok(None) => !frame::whole(old(self)@.arrived) && final(self)@ == old(self)@,
                Ok(Some(s)) => frame::whole(old(self)@.arrived) && vstd::utf8::valid_utf8(
                    frame::inside(old(self)@.arrived),
                ) && frame::text_bytes(s@) == frame::inside(old(self)@.arrived)
                    && final(self)@.arrived == frame::after(old(self)@.arrived),
                Err(m) => frame::whole(old(self)@.arrived) && !vstd::utf8::valid_utf8(
                    frame::inside(old(self)@.arrived),
                ) && m@ == "net: frame is not text: "@ + frame::utf8_complaint(
                    frame::inside(old(self)@.arrived),
                ) && final(self)@ == old(self)@,
            },
    {
        self.inbox.next_text()
    }
}

// ---- laws -------------------------------------------------------------------

/// The bytes that a series of answers took, and the connection after them.
pub open spec fn flushed(l: Line, answers: Seq<Wrote>, k: int) -> (Seq<u8>, Line)
    decreases k,
{
    if k <= 0 {
        (Seq::empty(), l)
    } else {
        let (out, before) = flushed(l, answers, k - 1);
        let w = answers[k - 1];
        (
            match w {
                Wrote::Taken(n) => out + before.unsent.take(n as int),
                _ => out,
            },
            written(before, w).0,
        )
    }
}

/// Could a socket give these answers? It never takes more than it was offered.
pub open spec fn possible(l: Line, answers: Seq<Wrote>) -> bool {
    forall|k: int|
        0 <= k < answers.len() ==> ((#[trigger] answers[k]) matches Wrote::Taken(n) ==> n
            <= flushed(l, answers, k).1.unsent.len())
}

/// However the socket takes them, bytes go out in order, none twice and none
/// lost: what was taken and what is still to go are what there was.
pub proof fn no_byte_is_lost(l: Line, answers: Seq<Wrote>, k: int)
    requires
        possible(l, answers),
        0 <= k <= answers.len(),
    ensures
        ({
            let (out, after) = flushed(l, answers, k);
            out + after.unsent == l.unsent && after.arrived == l.arrived
        }),
    decreases k,
{
    if k > 0 {
        no_byte_is_lost(l, answers, k - 1);
        let (out, before) = flushed(l, answers, k - 1);
        match answers[k - 1] {
            Wrote::Taken(n) => {
                assert(before.unsent.take(n as int) + before.unsent.skip(n as int)
                    =~= before.unsent);
                assert((out + before.unsent.take(n as int)) + before.unsent.skip(n as int) =~= out
                    + before.unsent);
                if n == 0 {
                    assert(out + before.unsent.take(0) =~= out);
                }
            },
            _ => {},
        }
    } else {
        assert(Seq::<u8>::empty() + l.unsent =~= l.unsent);
    }
}

/// A lost connection is a closed one.
pub proof fn what_is_lost_is_closed(l: Line, w: Wrote, g: Got)
    ensures
        written(l, w).1 is Lost ==> written(l, w).0.closed,
        read(l, g).1 is Lost ==> read(l, g).0.closed,
        l.closed ==> written(l, w).0.closed && read(l, g).0.closed,
{
}

/// What a socket takes leaves the front of what is to go; one that took it all is
/// done, one that took a part is asked again, and one that takes nothing is gone.
pub proof fn a_write_takes_from_the_front(l: Line, n: usize)
    requires
        n <= l.unsent.len(),
    ensures
        ({
            let (after, course) = written(l, Wrote::Taken(n));
            &&& after.arrived == l.arrived
            &&& n > 0 ==> l.unsent.take(n as int) + after.unsent == l.unsent && after.closed
                == l.closed
            &&& n > 0 && n == l.unsent.len() ==> course is Done
            &&& 0 < n < l.unsent.len() ==> course is Again
            &&& n == 0 ==> after.closed && course is Lost && after.unsent == l.unsent
            &&& written(l, Wrote::Full) == (l, Course::Done)
            &&& written(l, Wrote::Interrupted) == (l, Course::Again)
        }),
{
    let after = written(l, Wrote::Taken(n)).0;
    if n > 0 {
        assert(l.unsent.take(n as int) + after.unsent =~= l.unsent);
    }
}

/// What a socket gives is kept behind what it gave before, and it is asked again;
/// one that gives no bytes has been closed by the peer.
pub proof fn a_read_is_kept_in_order(l: Line, b: Vec<u8>)
    ensures
        ({
            let (after, course) = read(l, Got::Bytes(b));
            &&& after.arrived == l.arrived + b@
            &&& after.unsent == l.unsent
            &&& b@.len() > 0 ==> course is Again && after.closed == l.closed
            &&& b@.len() == 0 ==> course is Done && after.closed
            &&& read(l, Got::Nothing) == (l, Course::Done)
            &&& read(l, Got::Interrupted) == (l, Course::Again)
        }),
{
    let after = read(l, Got::Bytes(b)).0;
    assert(after.arrived =~= l.arrived + b@);
}

} // verus!
