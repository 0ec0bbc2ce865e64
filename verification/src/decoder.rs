use vstd::prelude::*;
use vstd::string::StrSliceExecFns;
use vstd::string::StringExecFns;

verus! {

/// Mathematical state of the stream decoder: the bytes of the line still
/// being assembled, the text accumulated so far, whether the completion flag
/// has been seen, and the lines that failed to parse (kept for diagnostics).
#[verifier::ext_equal]
pub ghost struct DecoderState {
    pub buf: Seq<u8>,
    pub text: Seq<char>,
    pub done: bool,
    pub dropped: Seq<Seq<char>>,
}

/// Whitespace as `char::is_whitespace` has it — the Unicode `White_Space`
/// set — stripped from the edges of each decoded line.
pub open spec fn is_ws(c: char) -> bool {
    ||| c == ' '
    ||| c == '\t'
    ||| c == '\n'
    ||| c == '\u{b}'
    ||| c == '\u{c}'
    ||| c == '\r'
    ||| c == '\u{85}'
    ||| c == '\u{a0}'
    ||| c == '\u{1680}'
    ||| ('\u{2000}' <= c && c <= '\u{200a}')
    ||| c == '\u{2028}'
    ||| c == '\u{2029}'
    ||| c == '\u{202f}'
    ||| c == '\u{205f}'
    ||| c == '\u{3000}'
}

/// `s` with whitespace stripped from both ends.
pub open spec fn trim_chars(s: Seq<char>) -> Seq<char>
    decreases s.len(),
{
    if s.len() == 0 {
        s
    } else if is_ws(s[0]) {
        trim_chars(s.drop_first())
    } else if is_ws(s.last()) {
        trim_chars(s.drop_last())
    } else {
        s
    }
}

/// The text that permissive UTF-8 decoding yields for a byte sequence.
pub uninterp spec fn lossy_of(bytes: Seq<u8>) -> Seq<char>;

/// Relies on `String::from_utf8_lossy`: the decoding depends on the bytes
/// alone; invalid sequences become replacement characters instead of errors.
#[verifier::external_body]
fn lossy_decode(bytes: &[u8]) -> (r: String)
    ensures
        r@ == lossy_of(bytes@),
{
    String::from_utf8_lossy(bytes).into_owned()
}

/// What one stream line yields: `None` when the line is not a JSON object
/// with a string field `response` and a boolean field `done`, otherwise the
/// text fragment and the completion flag.
pub uninterp spec fn chunk_of(line: Seq<char>) -> Option<(Seq<char>, bool)>;

/// Relies on `serde_json::from_str`, `serde_json::Value::get`,
/// `Value::as_str` and `Value::as_bool`: all pure functions of the line, used
/// to read the `response` and `done` fields of one event record.
#[verifier::external_body]
fn parse_chunk_line(line: &str) -> (r: Option<(String, bool)>)
    ensures
        r is Some <==> chunk_of(line@) is Some,
        r matches Some(p) ==> chunk_of(line@) == Some((p.0@, p.1)),
{
    match serde_json::from_str::<serde_json::Value>(line) {
        Ok(v) => {
            match (v.get("response").and_then(|f| f.as_str()), v.get("done").and_then(|f| f.as_bool())) {
                (Some(s), Some(d)) => Some((s.to_owned(), d)),
                _ => None,
            }
        },
        Err(_) => None,
    }
}

/// Effect of one complete line: the line's bytes are decoded permissively and
/// trimmed; a line left empty contributes nothing; an unparseable line is
/// recorded as dropped (a non-fatal condition the caller may report) and
/// decoding continues; a parsed record appends its fragment and reports its
/// completion flag. Yields the text, the flag and the dropped lines after.
pub open spec fn line_step(
    text: Seq<char>,
    dropped: Seq<Seq<char>>,
    line: Seq<u8>,
) -> (Seq<char>, bool, Seq<Seq<char>>) {
    let t = trim_chars(lossy_of(line));
    if t.len() == 0 {
        (text, false, dropped)
    } else {
        match chunk_of(t) {
            Some(p) => (text + p.0, p.1, dropped),
            None => (text, false, dropped.push(t)),
        }
    }
}

/// Feeding `input` to a decoder in state `st`, one byte at a time: a newline
/// closes the buffered line and applies `line_step`; any other byte joins the
/// buffer. Once the completion flag is set, all further bytes are ignored.
pub open spec fn spec_decode(st: DecoderState, input: Seq<u8>) -> DecoderState
    decreases input.len(),
{
    if st.done || input.len() == 0 {
        st
    } else {
        let b = input[0];
        let st2 = if b == 10 {
            let r = line_step(st.text, st.dropped, st.buf);
            DecoderState { buf: Seq::empty(), text: r.0, done: r.1, dropped: r.2 }
        } else {
            DecoderState { buf: st.buf.push(b), text: st.text, done: st.done, dropped: st.dropped }
        };
        spec_decode(st2, input.drop_first())
    }
}

/// Decoding distributes over concatenation: feeding `a` then `b` is feeding
/// `a + b`. This is the heart of boundary independence.
pub proof fn lemma_decode_concat(st: DecoderState, a: Seq<u8>, b: Seq<u8>)
    ensures
        spec_decode(st, a + b) == spec_decode(spec_decode(st, a), b),
    decreases a.len(),
{
    if st.done {
    } else if a.len() == 0 {
        assert(a + b =~= b);
    } else {
        let h = a[0];
        let st2 = if h == 10 {
            let r = line_step(st.text, st.dropped, st.buf);
            DecoderState { buf: Seq::empty(), text: r.0, done: r.1, dropped: r.2 }
        } else {
            DecoderState { buf: st.buf.push(h), text: st.text, done: st.done, dropped: st.dropped }
        };
        assert((a + b)[0] == h);
        assert((a + b).drop_first() =~= a.drop_first() + b);
        lemma_decode_concat(st2, a.drop_first(), b);
    }
}

/// The bytes of a sequence of chunks, in arrival order.
pub open spec fn concat_bytes(chunks: Seq<Seq<u8>>) -> Seq<u8>
    decreases chunks.len(),
{
    if chunks.len() == 0 {
        Seq::empty()
    } else {
        concat_bytes(chunks.drop_last()) + chunks.last()
    }
}

/// Feeding a sequence of chunks, one after the other.
pub open spec fn spec_decode_chunks(st: DecoderState, chunks: Seq<Seq<u8>>) -> DecoderState
    decreases chunks.len(),
{
    if chunks.len() == 0 {
        st
    } else {
        spec_decode(spec_decode_chunks(st, chunks.drop_last()), chunks.last())
    }
}

/// Law: decoding a stream chunk by chunk equals decoding all its bytes at
/// once — chunk boundaries leave no trace.
pub proof fn lemma_decode_chunks_is_decode(st: DecoderState, chunks: Seq<Seq<u8>>)
    ensures
        spec_decode_chunks(st, chunks) == spec_decode(st, concat_bytes(chunks)),
    decreases chunks.len(),
{
    if chunks.len() == 0 {
        assert(concat_bytes(chunks) =~= Seq::<u8>::empty());
    } else {
        lemma_decode_chunks_is_decode(st, chunks.drop_last());
        lemma_decode_concat(st, concat_bytes(chunks.drop_last()), chunks.last());
    }
}

/// Law: two chunkings of the same logical bytes decode to the same state.
pub proof fn lemma_boundary_independence(st: DecoderState, c1: Seq<Seq<u8>>, c2: Seq<Seq<u8>>)
    requires
        concat_bytes(c1) == concat_bytes(c2),
    ensures
        spec_decode_chunks(st, c1) == spec_decode_chunks(st, c2),
{
    lemma_decode_chunks_is_decode(st, c1);
    lemma_decode_chunks_is_decode(st, c2);
}

/// Law: once a record with the completion flag has been decoded, any trailing
/// bytes of the stream are ignored.
pub proof fn lemma_done_ignores_trailing(st: DecoderState, prefix: Seq<u8>, trailing: Seq<u8>)
    requires
        spec_decode(st, prefix).done,
    ensures
        spec_decode(st, prefix + trailing) == spec_decode(st, prefix),
{
    lemma_decode_concat(st, prefix, trailing);
}

fn is_ws_char(c: char) -> (r: bool)
    ensures
        r == is_ws(c),
{
    c == ' ' || c == '\t' || c == '\n' || c == '\u{b}' || c == '\u{c}' || c == '\r'
        || c == '\u{85}' || c == '\u{a0}' || c == '\u{1680}' || ('\u{2000}' <= c && c
        <= '\u{200a}') || c == '\u{2028}' || c == '\u{2029}' || c == '\u{202f}' || c == '\u{205f}'
        || c == '\u{3000}'
}

/// Strip whitespace from both ends of a decoded line, as `str::trim` would.
fn trim_str(s: &str) -> (r: String)
    ensures
        r@ == trim_chars(s@),
{
    let n = s.unicode_len();
    let mut a: usize = 0;
    let mut b: usize = n;
    proof {
        assert(s@.subrange(0, s@.len() as int) =~= s@);
    }
    while a < b && is_ws_char(s.get_char(a))
        invariant
            a <= b <= s@.len(),
            n == s@.len(),
            trim_chars(s@) == trim_chars(s@.subrange(a as int, b as int)),
        decreases b - a,
    {
        proof {
            let t = s@.subrange(a as int, b as int);
            assert(t.drop_first() =~= s@.subrange(a as int + 1, b as int));
        }
        a += 1;
    }
    while b > a && is_ws_char(s.get_char(b - 1))
        invariant
            a <= b <= s@.len(),
            n == s@.len(),
            trim_chars(s@) == trim_chars(s@.subrange(a as int, b as int)),
            a == b || !is_ws(s@[a as int]),
        decreases b - a,
    {
        proof {
            let t = s@.subrange(a as int, b as int);
            assert(t[0] == s@[a as int]);
            assert(t.last() == s@[b as int - 1]);
            assert(t.drop_last() =~= s@.subrange(a as int, b as int - 1));
        }
        b -= 1;
    }
    proof {
        let t = s@.subrange(a as int, b as int);
        if a < b {
            assert(t[0] == s@[a as int]);
            assert(t.last() == s@[b as int - 1]);
            assert(trim_chars(t) == t);
        }
    }
    s.substring_char(a, b).to_owned()
}

/// Reassembles one text answer from a stream of newline-delimited JSON event
/// records that arrives in arbitrarily sized byte chunks. Each complete line
/// is decoded permissively and trimmed; when non-empty it is parsed, and an
/// unparseable line is dropped — recorded for the caller to report — while
/// decoding continues. A record whose completion flag is set ends decoding:
/// everything after it is ignored. A stream that ends without the flag simply
/// yields the text accumulated so far.
pub struct StreamDecoder {
    buf: Vec<u8>,
    text: String,
    done: bool,
    dropped: Vec<String>,
}

impl View for StreamDecoder {
    type V = DecoderState;

    closed spec fn view(&self) -> DecoderState {
        DecoderState {
            buf: self.buf@,
            text: self.text@,
            done: self.done,
            dropped: self.dropped.deep_view(),
        }
    }
}

impl StreamDecoder {
    pub fn new() -> (r: StreamDecoder)
        ensures
            r@ == (DecoderState {
                buf: Seq::empty(),
                text: Seq::empty(),
                done: false,
                dropped: Seq::empty(),
            }),
    {
        let r = StreamDecoder {
            buf: Vec::new(),
            text: String::new(),
            done: false,
            dropped: Vec::new(),
        };
        proof {
            assert(r@ =~= (DecoderState {
                buf: Seq::empty(),
                text: Seq::empty(),
                done: false,
                dropped: Seq::empty(),
            }));
        }
        r
    }

    /// Whether the completion flag has been decoded: the caller may stop
    /// reading the stream.
    pub fn is_done(&self) -> (r: bool)
        ensures
            r == self@.done,
    {
        self.done
    }

    /// The text accumulated so far.
    pub fn text(&self) -> (r: &String)
        ensures
            r@ == self@.text,
    {
        &self.text
    }

    /// The lines that were dropped because they did not parse, in arrival
    /// order: the caller's material for non-fatal diagnostics.
    pub fn dropped_lines(&self) -> (r: &Vec<String>)
        ensures
            r.deep_view() == self@.dropped,
    {
        &self.dropped
    }

    /// Consume the decoder and hand the accumulated text out.
    pub fn into_text(self) -> (r: String)
        ensures
            r@ == self@.text,
    {
        self.text
    }

    /// Feed one received chunk of bytes to the decoder.
    pub fn push_chunk(&mut self, chunk: &[u8])
        ensures
            final(self)@ == spec_decode(old(self)@, chunk@),
    {
        let ghost st0 = self@;
        let n = chunk.len();
        let mut i: usize = 0;
        while i < n
            invariant
                i <= n,
                n == chunk@.len(),
                self@ == spec_decode(st0, chunk@.take(i as int)),
            decreases n - i,
        {
            let ghost cur = self@;
            let ghost single = seq![chunk@[i as int]];
            proof {
                assert(chunk@.take(i as int + 1) =~= chunk@.take(i as int) + single);
                lemma_decode_concat(st0, chunk@.take(i as int), single);
                assert(single.drop_first() =~= Seq::<u8>::empty());
            }
            if !self.done {
                let b = chunk[i];
                if b == 10 {
                    let decoded = lossy_decode(self.buf.as_slice());
                    let trimmed = trim_str(decoded.as_str());
                    let ghost r = line_step(cur.text, cur.dropped, cur.buf);
                    if !trimmed.as_str().is_empty() {
                        match parse_chunk_line(trimmed.as_str()) {
                            Some(p) => {
                                let (frag, d) = p;
                                self.text.append(frag.as_str());
                                self.done = d;
                            },
                            None => {
                                let ghost dr0 = self.dropped.deep_view();
                                self.dropped.push(trimmed);
                                proof {
                                    assert(self.dropped.deep_view() =~= dr0.push(
                                        trim_chars(lossy_of(cur.buf)),
                                    ));
                                }
                            },
                        }
                    }
                    self.buf = Vec::new();
                    proof {
                        reveal_with_fuel(spec_decode, 2);
                        assert(self@.text == r.0 && self@.done == r.1 && self@.dropped == r.2);
                        assert(spec_decode(cur, single) == (DecoderState {
                            buf: Seq::empty(),
                            text: r.0,
                            done: r.1,
                            dropped: r.2,
                        }));
                        assert(self@ =~= spec_decode(cur, single));
                    }
                } else {
                    self.buf.push(b);
                    proof {
                        reveal_with_fuel(spec_decode, 2);
                        assert(self@ =~= spec_decode(cur, single));
                    }
                }
            } else {
                proof {
                    assert(spec_decode(cur, single) == cur);
                }
            }
            i += 1;
        }
        proof {
            assert(chunk@.take(n as int) =~= chunk@);
        }
    }
}

} // verus!
