//! Frames on a byte stream: a length, and that many bytes of text.

use vstd::prelude::*;

use crate::text;

verus! {

/// The four bytes of a length, the lowest first.
pub open spec fn length_bytes(n: u32) -> Seq<u8> {
    seq![
        (n % 0x100) as u8,
        (n / 0x100 % 0x100) as u8,
        (n / 0x1_0000 % 0x100) as u8,
        (n / 0x100_0000) as u8,
    ]
}

/// The length that the first four bytes say.
pub open spec fn length_of(bytes: Seq<u8>) -> int {
    bytes[0] + bytes[1] * 0x100 + bytes[2] * 0x1_0000 + bytes[3] * 0x100_0000
}

/// A text, as bytes.
pub open spec fn text_bytes(s: Seq<char>) -> Seq<u8> {
    vstd::utf8::encode_utf8(s)
}

/// A text as a frame.
pub open spec fn framed(s: Seq<char>) -> Seq<u8> {
    length_bytes(text_bytes(s).len() as u32) + text_bytes(s)
}

/// Is there a whole frame in front?
pub open spec fn whole(bytes: Seq<u8>) -> bool {
    bytes.len() >= 4 && bytes.len() - 4 >= length_of(bytes)
}

/// The bytes inside the frame in front.
pub open spec fn inside(bytes: Seq<u8>) -> Seq<u8> {
    bytes.subrange(4, 4 + length_of(bytes))
}

/// The bytes after the frame in front.
pub open spec fn after(bytes: Seq<u8>) -> Seq<u8> {
    bytes.skip(4 + length_of(bytes))
}

/// What `String::from_utf8` says of bytes that are not text, as its error
/// displays.
pub uninterp spec fn utf8_complaint(bytes: Seq<u8>) -> Seq<char>;

/// Reads bytes as text through `std::string::String::from_utf8`. Claimed of it:
/// it succeeds exactly on valid UTF-8 and then gives the text of these bytes;
/// otherwise the error, displayed, is a function of the bytes.
#[verifier::external_body]
fn read_text(bytes: Vec<u8>) -> (r: Result<String, String>)
    ensures
        match r {
            Ok(s) => vstd::utf8::valid_utf8(bytes@) && text_bytes(s@) == bytes@,
            Err(e) => !vstd::utf8::valid_utf8(bytes@) && e@ == utf8_complaint(bytes@),
        },
{
    String::from_utf8(bytes).map_err(|e| format!("{e}"))
}

/// Put a text into a frame. A text whose length does not fit is refused.
pub fn encode(s: &str) -> (r: Result<Vec<u8>, String>)
    ensures
        match r {
            Ok(bytes) => text_bytes(s@).len() <= u32::MAX && bytes@ == framed(s@),
            Err(m) => text_bytes(s@).len() > u32::MAX && m@ == "net: frame too large"@,
        },
{
    let body: &[u8] = s.as_bytes();
    let n: usize = body.len();
    if n as u64 > u32::MAX as u64 {
        return Err("net: frame too large".to_owned());
    }
    let len: u32 = n as u32;
    let mut out: Vec<u8> = Vec::new();
    out.push((len % 0x100) as u8);
    out.push((len / 0x100 % 0x100) as u8);
    out.push((len / 0x1_0000 % 0x100) as u8);
    out.push((len / 0x100_0000) as u8);
    assert(out@ =~= length_bytes(len) + body@.take(0));
    let mut k: usize = 0;
    while k < body.len()
        invariant
            k <= body@.len(),
            out@ == length_bytes(len) + body@.take(k as int),
        decreases body@.len() - k,
    {
        out.push(body[k]);
        assert(out@ =~= length_bytes(len) + body@.take(k + 1));
        k = k + 1;
    }
    assert(body@.take(body@.len() as int) =~= body@);
    Ok(out)
}

/// Bytes that have arrived and are not yet read.
#[derive(Debug)]
pub struct Inbox {
    bytes: Vec<u8>,
}

impl View for Inbox {
    type V = Seq<u8>;

    closed spec fn view(&self) -> Seq<u8> {
        self.bytes@
    }
}

impl Default for Inbox {
    fn default() -> (r: Self)
        ensures
            r@ == Seq::<u8>::empty(),
    {
        Inbox { bytes: Vec::new() }
    }
}

impl Inbox {
    /// Append bytes that have arrived.
    pub fn feed(&mut self, more: &[u8])
        ensures
            final(self)@ == old(self)@ + more@,
    {
        let ghost before = self.bytes@;
        assert(before + more@.take(0) =~= before);
        let mut k: usize = 0;
        while k < more.len()
            invariant
                k <= more@.len(),
                self.bytes@ == before + more@.take(k as int),
            decreases more@.len() - k,
        {
            self.bytes.push(more[k]);
            assert(self.bytes@ =~= before + more@.take(k + 1));
            k = k + 1;
        }
        assert(more@.take(more@.len() as int) =~= more@);
    }

    /// The text of the frame in front, if a whole one has arrived. A frame that
    /// is not text is an error and stays where it is.
    pub fn next_text(&mut self) -> (r: Result<Option<String>, String>)
        ensures
            match r {
                Ok(None) => !whole(old(self)@) && final(self)@ == old(self)@,
                Ok(Some(s)) => whole(old(self)@) && vstd::utf8::valid_utf8(inside(old(self)@))
                    && text_bytes(s@) == inside(old(self)@) && final(self)@ == after(old(self)@),
                Err(m) => whole(old(self)@) && !vstd::utf8::valid_utf8(inside(old(self)@)) && m@
                    == "net: frame is not text: "@ + utf8_complaint(inside(old(self)@))
                    && final(self)@ == old(self)@,
            },
    {
        let n: usize = self.bytes.len();
        if n < 4 {
            return Ok(None);
        }
        let len: u32 = self.bytes[0] as u32 + self.bytes[1] as u32 * 0x100 + self.bytes[2] as u32
            * 0x1_0000 + self.bytes[3] as u32 * 0x100_0000;
        assert(len == length_of(self@));
        if ((n - 4) as u64) < len as u64 {
            return Ok(None);
        }
        let end: usize = 4 + len as usize;
        let mut body: Vec<u8> = Vec::new();
        let mut k: usize = 4;
        while k < end
            invariant
                4 <= k <= end <= self.bytes@.len(),
                body@ == self.bytes@.subrange(4, k as int),
            decreases end - k,
        {
            body.push(self.bytes[k]);
            assert(body@ =~= self.bytes@.subrange(4, k + 1));
            k = k + 1;
        }
        match read_text(body) {
            Ok(s) => {
                let mut rest: Vec<u8> = Vec::new();
                let mut k: usize = end;
                while k < n
                    invariant
                        end <= k <= n,
                        n == self.bytes@.len(),
                        rest@ == self.bytes@.subrange(end as int, k as int),
                    decreases n - k,
                {
                    rest.push(self.bytes[k]);
                    assert(rest@ =~= self.bytes@.subrange(end as int, k + 1));
                    k = k + 1;
                }
                assert(rest@ =~= after(self@));
                self.bytes = rest;
                Ok(Some(s))
            },
            Err(e) => {
                let mut m: String = "net: frame is not text: ".to_owned();
                m.append(e.as_str());
                Err(m)
            },
        }
    }
}

// ---- laws -------------------------------------------------------------------

/// Four bytes hold a length.
pub proof fn lengths_read_back(n: u32, rest: Seq<u8>)
    ensures
        length_of(length_bytes(n) + rest) == n,
{
    let b = length_bytes(n) + rest;
    assert(b[0] == n % 0x100);
    assert(b[1] == n / 0x100 % 0x100);
    assert(b[2] == n / 0x1_0000 % 0x100);
    assert(b[3] == n / 0x100_0000);
    assert(n == n % 0x100 + n / 0x100 % 0x100 * 0x100 + n / 0x1_0000 % 0x100 * 0x1_0000 + n
        / 0x100_0000 * 0x100_0000);
}

/// What was framed is read back: a frame in front of anything is whole, holds
/// exactly its text, and leaves what came after it.
pub proof fn frames_read_back(s: Seq<char>, rest: Seq<u8>)
    requires
        text_bytes(s).len() <= u32::MAX,
    ensures
        whole(framed(s) + rest),
        inside(framed(s) + rest) == text_bytes(s),
        after(framed(s) + rest) == rest,
        vstd::utf8::valid_utf8(inside(framed(s) + rest)),
{
    let n = text_bytes(s).len() as u32;
    let b = framed(s) + rest;
    assert(b =~= length_bytes(n) + (text_bytes(s) + rest));
    lengths_read_back(n, text_bytes(s) + rest);
    assert(inside(b) =~= text_bytes(s));
    assert(after(b) =~= rest);
    vstd::utf8::encode_utf8_valid_utf8(s);
}

/// A frame that has not arrived whole is waited for: whatever part of it is
/// missing, nothing is taken.
pub proof fn part_of_a_frame_waits(s: Seq<char>, k: int)
    requires
        text_bytes(s).len() <= u32::MAX,
        0 <= k < framed(s).len(),
    ensures
        !whole(framed(s).take(k)),
{
    if k >= 4 {
        let n = text_bytes(s).len() as u32;
        let tail = text_bytes(s).take(k - 4);
        assert(framed(s).take(k) =~= length_bytes(n) + tail);
        lengths_read_back(n, tail);
    }
}

/// A text is determined by its bytes.
pub proof fn one_text_per_frame(a: Seq<char>, b: Seq<char>)
    requires
        text_bytes(a) == text_bytes(b),
    ensures
        a == b,
{
    vstd::utf8::encode_utf8_decode_utf8(a);
    vstd::utf8::encode_utf8_decode_utf8(b);
}

/// A frame is four bytes of length, the lowest first, and then as many bytes of
/// text.
pub proof fn a_frame_starts_with_its_length(s: Seq<char>)
    requires
        text_bytes(s).len() <= u32::MAX,
    ensures
        framed(s).len() == 4 + text_bytes(s).len(),
        framed(s).skip(4) == text_bytes(s),
        framed(s)[0] + framed(s)[1] * 0x100 + framed(s)[2] * 0x1_0000 + framed(s)[3] * 0x100_0000
            == text_bytes(s).len(),
{
    let n = text_bytes(s).len() as u32;
    assert(framed(s).skip(4) =~= text_bytes(s));
    lengths_read_back(n, text_bytes(s));
}

} // verus!
