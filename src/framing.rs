use vstd::prelude::*;

use crate::request::ServerError;

verus! {

/// The byte that, doubled, marks each end of a frame.
pub const PIPE: u8 = 124;

/// A delimiter (two `PIPE` bytes) starts at position `i` of `s`.
pub open spec fn delim_at(s: Seq<u8>, i: int) -> bool {
    0 <= i && i + 1 < s.len() && s[i] == PIPE && s[i + 1] == PIPE
}

/// Once the reader has found a frame, later chunks do not change it.
pub proof fn lemma_decode_prefix(chunks: Seq<Seq<u8>>, n: int)
    requires
        0 <= n <= chunks.len(),
        decode_stream(chunks.take(n)) is Some,
    ensures
        decode_stream(chunks) == decode_stream(chunks.take(n)),
    decreases chunks.len() - n,
{
    if n < chunks.len() {
        let init = chunks.drop_last();
        assert(init.take(n) =~= chunks.take(n));
        lemma_decode_prefix(init, n);
    } else {
        assert(chunks.take(n) =~= chunks);
    }
}

/// The first position at or after `from` where a delimiter starts.
pub open spec fn next_delim(s: Seq<u8>, from: int) -> Option<int>
    decreases s.len() - from,
{
    if from < 0 || from + 1 >= s.len() {
        None
    } else if delim_at(s, from) {
        Some(from)
    } else {
        next_delim(s, from + 1)
    }
}

/// Where the payload of the first frame in `s` lies: it starts after the
/// first delimiter and ends at the next delimiter that does not overlap it.
pub open spec fn frame_span(s: Seq<u8>) -> Option<(int, int)> {
    match next_delim(s, 0) {
        None => None,
        Some(i) => match next_delim(s, i + 2) {
            None => None,
            Some(j) => Some((i + 2, j)),
        },
    }
}

/// The payload of the first frame in `s`, if `s` holds a complete frame.
pub open spec fn frame_payload(s: Seq<u8>) -> Option<Seq<u8>> {
    match frame_span(s) {
        None => None,
        Some(span) => Some(s.subrange(span.0, span.1)),
    }
}

/// The bytes written for a payload: the payload between two delimiters.
pub open spec fn framed(p: Seq<u8>) -> Seq<u8> {
    seq![PIPE, PIPE] + p + seq![PIPE, PIPE]
}

/// Every `PIPE` in `p` is followed, inside `p`, by another byte: `p` holds no
/// delimiter and does not end in half of one.
pub open spec fn frame_safe(p: Seq<u8>) -> bool {
    forall|k: int| 0 <= k < p.len() && #[trigger] p[k] == PIPE ==> k + 1 < p.len() && p[k + 1] != PIPE
}

/// The bytes of a stream that arrived in chunks, in order.
pub open spec fn joined(chunks: Seq<Seq<u8>>) -> Seq<u8>
    decreases chunks.len(),
{
    if chunks.len() == 0 {
        Seq::empty()
    } else {
        joined(chunks.drop_last()) + chunks.last()
    }
}

/// What a reader gets that appends each chunk to its buffer, looks for a
/// frame after each one, and stops at the first frame it finds.
pub open spec fn decode_stream(chunks: Seq<Seq<u8>>) -> Option<Seq<u8>>
    decreases chunks.len(),
{
    if chunks.len() == 0 {
        None
    } else {
        match decode_stream(chunks.drop_last()) {
            Some(p) => Some(p),
            None => frame_payload(joined(chunks)),
        }
    }
}

/// A delimiter found in `s` stays the first one found when bytes are appended.
pub proof fn lemma_next_delim_extend(s: Seq<u8>, t: Seq<u8>, from: int)
    requires
        next_delim(s, from) is Some,
    ensures
        next_delim(s + t, from) == next_delim(s, from),
    decreases s.len() - from,
{
    let st = s + t;
    if !delim_at(s, from) {
        assert(!delim_at(st, from));
        lemma_next_delim_extend(s, t, from + 1);
    } else {
        assert(delim_at(st, from));
    }
}

/// A frame found in `s` is still the frame found once more bytes arrive.
pub proof fn lemma_frame_extend(s: Seq<u8>, t: Seq<u8>)
    requires
        frame_payload(s) is Some,
    ensures
        frame_payload(s + t) == frame_payload(s),
{
    let i = next_delim(s, 0)->Some_0;
    lemma_next_delim_extend(s, t, 0);
    lemma_next_delim_extend(s, t, i + 2);
    let j = next_delim(s, i + 2)->Some_0;
    lemma_next_delim_in_range(s, i + 2);
    assert((s + t).subrange(i + 2, j) =~= s.subrange(i + 2, j));
}

/// A delimiter that `next_delim` reports starts at or after `from`, lies
/// inside `s`, and no delimiter starts between the two.
pub proof fn lemma_next_delim_in_range(s: Seq<u8>, from: int)
    ensures
        next_delim(s, from) matches Some(i) ==> from <= i && delim_at(s, i) && forall|k: int|
            from <= k < i ==> !delim_at(s, k),
        0 <= from && next_delim(s, from) is None ==> forall|k: int| from <= k ==> !delim_at(s, k),
    decreases s.len() - from,
{
    if from < 0 || from + 1 >= s.len() {
    } else if delim_at(s, from) {
    } else {
        lemma_next_delim_in_range(s, from + 1);
    }
}

/// The first delimiter at or after `from` is the one that `next_delim` finds.
pub proof fn lemma_next_delim_is(s: Seq<u8>, from: int, i: int)
    requires
        0 <= from <= i,
        delim_at(s, i),
        forall|k: int| from <= k < i ==> !delim_at(s, k),
    ensures
        next_delim(s, from) == Some(i),
    decreases i - from,
{
    if from < i {
        lemma_next_delim_is(s, from + 1, i);
    }
}

/// However a stream is cut into chunks, the reader finds the first frame of
/// all the bytes that arrived, or none where they hold no complete frame.
pub proof fn lemma_chunk_invariance(chunks: Seq<Seq<u8>>)
    ensures
        decode_stream(chunks) == frame_payload(joined(chunks)),
    decreases chunks.len(),
{
    if chunks.len() > 0 {
        let init = chunks.drop_last();
        lemma_chunk_invariance(init);
        if decode_stream(init) is Some {
            lemma_frame_extend(joined(init), chunks.last());
        }
    } else {
        assert(next_delim(joined(chunks), 0) is None);
    }
}

/// Two ways of cutting the same bytes into chunks decode alike.
pub proof fn lemma_same_bytes_same_frame(a: Seq<Seq<u8>>, b: Seq<Seq<u8>>)
    requires
        joined(a) == joined(b),
    ensures
        decode_stream(a) == decode_stream(b),
{
    lemma_chunk_invariance(a);
    lemma_chunk_invariance(b);
}

/// Output that holds no delimiter decodes to no frame, however it was cut
/// into chunks: the reader reports `RequestParse` once it ends.
pub proof fn lemma_no_frame(chunks: Seq<Seq<u8>>)
    requires
        forall|k: int| !delim_at(joined(chunks), k),
    ensures
        decode_stream(chunks) is None,
{
    lemma_chunk_invariance(chunks);
    lemma_next_delim_in_range(joined(chunks), 0);
}

/// A frame written around a payload that holds no delimiter, after output
/// that holds none either, decodes to that payload, whatever follows it.
pub proof fn lemma_frame_round_trip(lead: Seq<u8>, p: Seq<u8>, trail: Seq<u8>)
    requires
        frame_safe(lead),
        frame_safe(p),
    ensures
        frame_payload(lead + framed(p) + trail) == Some(p),
{
    let s = lead + framed(p) + trail;
    let l = lead.len() as int;
    let e = l + 2 + p.len();
    assert(delim_at(s, l));
    assert forall|k: int| 0 <= k < l implies !delim_at(s, k) by {
        if s[k] == PIPE {
            assert(lead[k] == PIPE);
        }
    }
    lemma_next_delim_is(s, 0, l);
    assert(delim_at(s, e));
    assert forall|k: int| l + 2 <= k < e implies !delim_at(s, k) by {
        if s[k] == PIPE {
            assert(p[k - l - 2] == PIPE);
        }
    }
    lemma_next_delim_is(s, l + 2, e);
    assert(s.subrange(l + 2, e) =~= p);
}

/// The first position at or after `from` where a delimiter starts in `s`.
pub fn find_delim(s: &[u8], from: usize) -> (r: Option<usize>)
    ensures
        r matches Some(i) ==> next_delim(s@, from as int) == Some(i as int),
        r is None ==> next_delim(s@, from as int) is None,
{
    let mut i: usize = from;
    while i < s.len() && i + 1 < s.len()
        invariant
            from <= i,
            next_delim(s@, from as int) == next_delim(s@, i as int),
        decreases s.len() - i,
    {
        if s[i] == PIPE && s[i + 1] == PIPE {
            return Some(i);
        }
        i = i + 1;
    }
    None
}

/// The bounds of the payload of the first complete frame in `s`.
pub fn find_frame(s: &[u8]) -> (r: Option<(usize, usize)>)
    ensures
        r matches Some(span) ==> frame_span(s@) == Some((span.0 as int, span.1 as int)),
        r is None ==> frame_span(s@) is None,
{
    proof {
        lemma_next_delim_in_range(s@, 0);
    }
    match find_delim(s, 0) {
        None => None,
        Some(i) => {
            assert(delim_at(s@, i as int));
            assert(i + 1 < s.len());
            match find_delim(s, i + 2) {
                None => None,
                Some(j) => Some((i + 2, j)),
            }
        },
    }
}

/// The payload of the first complete frame in `s`, copied out.
pub fn frame_in(s: &[u8]) -> (r: Option<Vec<u8>>)
    ensures
        r matches Some(p) ==> frame_payload(s@) == Some(p@),
        r is None ==> frame_payload(s@) is None,
{
    match find_frame(s) {
        None => None,
        Some(span) => {
            proof {
                lemma_next_delim_in_range(s@, 0);
                lemma_next_delim_in_range(s@, span.0 as int);
            }
            let mut out: Vec<u8> = Vec::new();
            let mut k: usize = span.0;
            while k < span.1
                invariant
                    span.0 <= k <= span.1 <= s.len(),
                    out@ =~= s@.subrange(span.0 as int, k as int),
                decreases span.1 - k,
            {
                out.push(s[k]);
                k = k + 1;
            }
            Some(out)
        },
    }
}

/// The bytes to write for a payload: the payload between two delimiters.
/// The payload must hold no delimiter, so that the frame decodes to it.
pub fn encode_frame(payload: &[u8]) -> (r: Vec<u8>)
    requires
        frame_safe(payload@),
    ensures
        r@ == framed(payload@),
        frame_payload(r@) == Some(payload@),
{
    let mut out: Vec<u8> = Vec::new();
    out.push(PIPE);
    out.push(PIPE);
    let mut k: usize = 0;
    while k < payload.len()
        invariant
            k <= payload.len(),
            out@ =~= seq![PIPE, PIPE] + payload@.subrange(0, k as int),
        decreases payload.len() - k,
    {
        out.push(payload[k]);
        k = k + 1;
    }
    out.push(PIPE);
    out.push(PIPE);
    assert(payload@.subrange(0, payload.len() as int) =~= payload@);
    assert(out@ =~= framed(payload@));
    proof {
        let none = Seq::<u8>::empty();
        lemma_frame_round_trip(none, payload@, none);
        assert(none + framed(payload@) + none =~= framed(payload@));
    }
    out
}

/// The bytes that stand for a `PIPE` in escaped JSON text: `\u007c`.
pub open spec fn pipe_escape() -> Seq<u8> {
    seq![92u8, 117u8, 48u8, 48u8, 55u8, 99u8]
}

/// `p` with each `PIPE` replaced by `pipe_escape()`.
pub open spec fn escaped(p: Seq<u8>) -> Seq<u8>
    decreases p.len(),
{
    if p.len() == 0 {
        Seq::empty()
    } else {
        escaped(p.drop_last()) + if p.last() == PIPE {
            pipe_escape()
        } else {
            seq![p.last()]
        }
    }
}

/// Replaces each `|` of a JSON text by the escape `\u007c`. In JSON a `|`
/// can stand only inside a string, where the escape means the same
/// character, so the text keeps its meaning and can no longer hold a
/// delimiter.
pub fn escape_pipes(text: &[u8]) -> (r: Vec<u8>)
    ensures
        r@ == escaped(text@),
        forall|k: int| 0 <= k < r@.len() ==> r@[k] != PIPE,
        frame_safe(r@),
{
    let mut out: Vec<u8> = Vec::new();
    let mut k: usize = 0;
    while k < text.len()
        invariant
            k <= text.len(),
            out@ == escaped(text@.subrange(0, k as int)),
            forall|m: int| 0 <= m < out@.len() ==> out@[m] != PIPE,
        decreases text.len() - k,
    {
        let ghost before = out@;
        let ghost part = text@.subrange(0, k as int + 1);
        assert(part.drop_last() =~= text@.subrange(0, k as int));
        if text[k] == PIPE {
            out.push(92u8);
            out.push(117u8);
            out.push(48u8);
            out.push(48u8);
            out.push(55u8);
            out.push(99u8);
            assert(out@ =~= before + pipe_escape());
        } else {
            out.push(text[k]);
            assert(out@ =~= before + seq![text[k as int]]);
        }
        k = k + 1;
    }
    assert(text@.subrange(0, text.len() as int) =~= text@);
    out
}

/// Reads a response frame out of output that arrives in chunks, with any
/// other output (prompts, echoes, banners) around the frame. It remembers how
/// far it has looked, so that each byte is scanned once however many chunks
/// arrive.
pub struct FrameDecoder {
    buffer: Vec<u8>,
    /// Where the payload starts, once the opening delimiter has come.
    open: Option<usize>,
    /// Where to look on: no delimiter that the search still cares about
    /// starts before this position.
    scanned: usize,
}

impl View for FrameDecoder {
    type V = Seq<u8>;

    /// The bytes received so far.
    closed spec fn view(&self) -> Seq<u8> {
        self.buffer@
    }
}

/// No delimiter starts in `s` at a position in `[from, to)`, and all those
/// positions lie before the last byte of `s`, so no later byte can make one.
pub open spec fn clear(s: Seq<u8>, from: int, to: int) -> bool {
    &&& (from < to ==> to < s.len())
    &&& forall|k: int| from <= k < to ==> !#[trigger] delim_at(s, k)
}

/// Appending bytes keeps a stretch clear.
proof fn lemma_clear_extend(s: Seq<u8>, t: Seq<u8>, from: int, to: int)
    requires
        0 <= from,
        clear(s, from, to),
    ensures
        clear(s + t, from, to),
{
    let st = s + t;
    assert forall|k: int| from <= k < to implies !#[trigger] delim_at(st, k) by {
        assert(!delim_at(s, k));
        assert(st[k] == s[k]);
        assert(st[k + 1] == s[k + 1]);
    }
}

impl FrameDecoder {
    /// The decoder's own record of the search agrees with its buffer.
    pub closed spec fn wf(&self) -> bool {
        let s = self.buffer@;
        &&& self.scanned <= s.len()
        &&& match self.open {
            None => clear(s, 0, self.scanned as int),
            Some(start) => start >= 2 && next_delim(s, 0) == Some(start - 2) && start
                <= self.scanned && clear(s, start as int, self.scanned as int),
        }
    }

    /// A decoder that has received nothing.
    pub fn new() -> (r: FrameDecoder)
        ensures
            r.wf(),
            r@ == Seq::<u8>::empty(),
    {
        FrameDecoder { buffer: Vec::new(), open: None, scanned: 0 }
    }

    /// Takes the next chunk of output and returns the payload of the first
    /// complete frame in all the output received, if there is one yet.
    pub fn feed(&mut self, chunk: &[u8]) -> (r: Option<Vec<u8>>)
        requires
            old(self).wf(),
        ensures
            final(self).wf(),
            final(self)@ == old(self)@ + chunk@,
            r matches Some(p) ==> frame_payload(final(self)@) == Some(p@),
            r is None ==> frame_payload(final(self)@) is None,
    {
        let mut k: usize = 0;
        let ghost start = self.buffer@;
        while k < chunk.len()
            invariant
                k <= chunk.len(),
                self.buffer@ =~= start + chunk@.subrange(0, k as int),
                self.open == old(self).open,
                self.scanned == old(self).scanned,
            decreases chunk.len() - k,
        {
            self.buffer.push(chunk[k]);
            k = k + 1;
        }
        assert(chunk@.subrange(0, chunk.len() as int) =~= chunk@);
        let ghost s = self.buffer@;
        proof {
            match self.open {
                None => lemma_clear_extend(start, chunk@, 0, self.scanned as int),
                Some(o) => {
                    lemma_clear_extend(start, chunk@, o as int, self.scanned as int);
                    lemma_next_delim_extend(start, chunk@, 0);
                },
            }
        }
        let len = self.buffer.len();
        if self.open.is_none() {
            proof {
                lemma_next_delim_in_range(s, self.scanned as int);
            }
            match find_delim(self.buffer.as_slice(), self.scanned) {
                None => {
                    if len > 0 {
                        self.scanned = len - 1;
                    }
                    proof {
                        lemma_next_delim_in_range(s, 0);
                    }
                    return None;
                },
                Some(i) => {
                    proof {
                        lemma_next_delim_is(s, 0, i as int);
                    }
                    self.open = Some(i + 2);
                    self.scanned = i + 2;
                },
            }
        }
        let start_at = match self.open {
            Some(o) => o,
            None => 0,
        };
        proof {
            lemma_next_delim_in_range(s, self.scanned as int);
        }
        match find_delim(self.buffer.as_slice(), self.scanned) {
            None => {
                if len > 0 && len - 1 > self.scanned {
                    self.scanned = len - 1;
                }
                proof {
                    lemma_next_delim_in_range(s, start_at as int);
                }
                None
            },
            Some(j) => {
                proof {
                    lemma_next_delim_is(s, start_at as int, j as int);
                }
                self.scanned = j;
                let ghost span = (start_at as int, j as int);
                assert(frame_span(s) == Some(span));
                let mut out: Vec<u8> = Vec::new();
                let mut m: usize = start_at;
                while m < j
                    invariant
                        start_at <= m <= j < s.len(),
                        self.buffer@ == s,
                        out@ =~= s.subrange(start_at as int, m as int),
                    decreases j - m,
                {
                    out.push(self.buffer[m]);
                    m = m + 1;
                }
                Some(out)
            },
        }
    }

    /// What a stream that ended, or failed, before a complete frame came
    /// means to the caller.
    pub fn ended(&self) -> (r: ServerError)
        ensures
            r == ServerError::RequestParse,
    {
        ServerError::RequestParse
    }
}

/// Decodes the frame out of a stream given as its chunks, in order: the
/// reader stops at the first frame, and a stream that ends without a
/// complete frame is a `RequestParse` error.
pub fn decode_chunks(chunks: &Vec<Vec<u8>>) -> (r: Result<Vec<u8>, ServerError>)
    ensures
        r matches Ok(p) ==> decode_stream(chunks.deep_view()) == Some(p@),
        r matches Err(e) ==> e == ServerError::RequestParse && decode_stream(
            chunks.deep_view(),
        ) is None,
{
    let mut decoder = FrameDecoder::new();
    let mut n: usize = 0;
    while n < chunks.len()
        invariant
            n <= chunks.len(),
            decoder.wf(),
            decoder@ == joined(chunks.deep_view().take(n as int)),
            decode_stream(chunks.deep_view().take(n as int)) is None,
        decreases chunks.len() - n,
    {
        let ghost cs = chunks.deep_view().take(n as int + 1);
        assert(cs.drop_last() =~= chunks.deep_view().take(n as int));
        assert(cs.last() == chunks[n as int]@);
        let found = decoder.feed(chunks[n].as_slice());
        n = n + 1;
        assert(chunks.deep_view().take(n as int) =~= cs);
        if let Some(p) = found {
            assert(chunks.deep_view().take(n as int) =~= cs);
            proof {
                lemma_decode_prefix(chunks.deep_view(), n as int);
            }
            return Ok(p);
        }
    }
    assert(chunks.deep_view().take(n as int) =~= chunks.deep_view());
    Err(decoder.ended())
}

} // verus!
