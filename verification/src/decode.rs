//! The rolling-key cipher of the text files.
//!
//! Every line of an obfuscated file starts with a key byte. The bytes of the
//! line are XORed with the key, which grows by one with every byte it is
//! applied to; control bytes are stored as they are. Decoding works on chunks
//! of any size: what is left open at the end of a chunk is kept in the
//! [`Decoder`].

use crate::text::string_of;
use vstd::prelude::*;

verus! {

/// The line feed, which ends a line and announces the key of the next one.
pub const LINE_FEED: u8 = 0x0A;

/// Bytes below this value are stored as they are and leave the key alone.
pub const FIRST_CIPHERED: u8 = 0x1F;

/// Decoded bytes keep their low seven bits only.
pub const LOW_BITS: u8 = 0x7F;

/// Why an obfuscated source was refused.
#[derive(Debug, PartialEq, Eq, Clone, Copy)]
pub enum DecodeError {
    /// The source ended before its first key byte.
    EmptyInput,
}

/// What a decoder remembers between two bytes.
pub struct State {
    /// The key for the next ciphered byte.
    pub key: u8,
    /// Whether the next byte of the stream is the key of a new line.
    pub awaiting_key: bool,
}

/// The key that follows `key`.
pub open spec fn next_key(key: u8) -> u8 {
    if key == u8::MAX {
        0
    } else {
        (key + 1) as u8
    }
}

/// The plain byte that the ciphered byte `c` stands for under `key`.
pub open spec fn unmask(c: u8, key: u8) -> u8 {
    (c ^ key) & LOW_BITS
}

/// The state after the byte `c`, and the byte that it gives, if any.
pub open spec fn step(s: State, c: u8) -> (State, Option<u8>) {
    if s.awaiting_key {
        (State { key: c, awaiting_key: false }, None)
    } else if c == LINE_FEED {
        (State { key: s.key, awaiting_key: true }, Some(c))
    } else if c < FIRST_CIPHERED {
        (s, Some(c))
    } else {
        (State { key: next_key(s.key), awaiting_key: false }, Some(unmask(c, s.key)))
    }
}

/// The state after all of `input`, and the bytes that it gives.
pub open spec fn run(s: State, input: Seq<u8>) -> (State, Seq<u8>)
    decreases input.len(),
{
    if input.len() == 0 {
        (s, Seq::empty())
    } else {
        let (mid, out) = run(s, input.drop_last());
        let (end, emitted) = step(mid, input.last());
        (
            end,
            match emitted {
                Some(b) => out.push(b),
                None => out,
            },
        )
    }
}

/// The state after the chunks of `chunks`, fed one after the other, and the
/// bytes that they give, joined in that order.
pub open spec fn feed(s: State, chunks: Seq<Seq<u8>>) -> (State, Seq<u8>)
    decreases chunks.len(),
{
    if chunks.len() == 0 {
        (s, Seq::empty())
    } else {
        let (mid, out) = feed(s, chunks.drop_last());
        let (end, more) = run(mid, chunks.last());
        (end, out + more)
    }
}

/// The state of a decoder whose source began with the key byte `key`.
pub open spec fn initial(key: u8) -> State {
    State { key, awaiting_key: false }
}

/// The plain bytes of a whole obfuscated source, which must not be empty.
pub open spec fn decoded(input: Seq<u8>) -> Seq<u8>
    recommends
        input.len() > 0,
{
    run(initial(input[0]), input.skip(1)).1
}

/// Whether every byte is a seven-bit character.
pub open spec fn is_seven_bit(bytes: Seq<u8>) -> bool {
    forall|i: int| 0 <= i < bytes.len() ==> bytes[i] <= LOW_BITS
}

/// The text that seven-bit bytes spell: one character for each byte.
pub open spec fn text_of(bytes: Seq<u8>) -> Seq<char> {
    Seq::new(bytes.len(), |i: int| bytes[i] as char)
}

/// Decoding a stream in two parts gives what decoding it in one gives.
pub proof fn lemma_run_concat(s: State, a: Seq<u8>, b: Seq<u8>)
    ensures
        run(s, a + b) == (run(run(s, a).0, b).0, run(s, a).1 + run(run(s, a).0, b).1),
    decreases b.len(),
{
    if b.len() == 0 {
        assert(a + b == a);
        assert(run(s, a).1 + Seq::<u8>::empty() == run(s, a).1);
    } else {
        lemma_run_concat(s, a, b.drop_last());
        assert((a + b).drop_last() == a + b.drop_last());
        let mid = run(s, a);
        let rest = run(mid.0, b.drop_last());
        match step(rest.0, b.last()).1 {
            Some(x) => {
                assert((mid.1 + rest.1).push(x) == mid.1 + rest.1.push(x));
            },
            None => {},
        }
    }
}

/// However a stream is cut into chunks, feeding them in order to a decoder
/// leaves it in the state, and gives the bytes, of the uncut stream.
pub proof fn lemma_chunking(s: State, chunks: Seq<Seq<u8>>)
    ensures
        feed(s, chunks) == run(s, chunks.flatten()),
    decreases chunks.len(),
{
    if chunks.len() == 0 {
    } else {
        lemma_chunking(s, chunks.drop_last());
        chunks.drop_last().lemma_flatten_push(chunks.last());
        assert(chunks.drop_last().push(chunks.last()) == chunks);
        lemma_run_concat(s, chunks.drop_last().flatten(), chunks.last());
    }
}

/// However the bytes behind the first key byte of a source are cut into
/// chunks, a decoder that is started with the key byte and fed the chunks in
/// order gives the plain bytes of the whole source.
pub proof fn lemma_decode_in_chunks(input: Seq<u8>, chunks: Seq<Seq<u8>>)
    requires
        input.len() > 0,
        chunks.flatten() == input.skip(1),
    ensures
        feed(initial(input[0]), chunks).1 == decoded(input),
{
    lemma_chunking(initial(input[0]), chunks);
}

/// Every decoded byte fits in seven bits.
pub proof fn lemma_run_seven_bit(s: State, input: Seq<u8>)
    ensures
        is_seven_bit(run(s, input).1),
    decreases input.len(),
{
    if input.len() > 0 {
        lemma_run_seven_bit(s, input.drop_last());
        let mid = run(s, input.drop_last());
        let c = input.last();
        let k = mid.0.key;
        assert((c ^ k) & 0x7F <= 0x7F) by (bit_vector);
    }
}

/// The ciphered byte that stands for the plain byte `p` under `key`. Where
/// the XOR gives a control byte, its high bit is set: decoding drops it.
pub open spec fn mask(p: u8, key: u8) -> u8 {
    let c = p ^ key;
    if c < FIRST_CIPHERED {
        c | 0x80
    } else {
        c
    }
}

/// What the plain byte `p` becomes under `key`, and the key behind it. A
/// line feed is followed by `line_key`, the key of the next line.
pub open spec fn cipher_step(key: u8, line_key: u8, p: u8) -> (u8, Seq<u8>) {
    if p == LINE_FEED {
        (line_key, seq![LINE_FEED, line_key])
    } else if p < FIRST_CIPHERED {
        (key, seq![p])
    } else {
        (next_key(key), seq![mask(p, key)])
    }
}

/// What `plain` becomes under `key`, and the key behind it.
pub open spec fn cipher_run(key: u8, line_key: u8, plain: Seq<u8>) -> (u8, Seq<u8>)
    decreases plain.len(),
{
    if plain.len() == 0 {
        (key, Seq::empty())
    } else {
        let (mid, out) = cipher_run(key, line_key, plain.drop_last());
        let (end, more) = cipher_step(mid, line_key, plain.last());
        (end, out + more)
    }
}

/// The obfuscated form of `plain` in which every line starts with `key`.
pub open spec fn encoded(plain: Seq<u8>, key: u8) -> Seq<u8> {
    seq![key] + cipher_run(key, key, plain).1
}

/// Decoding undoes the ciphering of seven-bit bytes, from any key on.
pub proof fn lemma_run_cipher_run(key: u8, line_key: u8, plain: Seq<u8>)
    requires
        is_seven_bit(plain),
    ensures
        run(initial(key), cipher_run(key, line_key, plain).1) == (
            initial(cipher_run(key, line_key, plain).0),
            plain,
        ),
    decreases plain.len(),
{
    if plain.len() > 0 {
        let head = plain.drop_last();
        let p = plain.last();
        lemma_run_cipher_run(key, line_key, head);
        let (mid, out) = cipher_run(key, line_key, head);
        let (end, more) = cipher_step(mid, line_key, p);
        lemma_run_concat(initial(key), out, more);
        assert(p <= 0x7F);
        assert(({
            let c = p ^ mid;
            let m = if c < 0x1F {
                c | 0x80
            } else {
                c
            };
            m >= 0x1F && (m ^ mid) & 0x7F == p
        })) by (bit_vector)
            requires
                p <= 0x7F,
        ;
        reveal_with_fuel(run, 3);
        if p == LINE_FEED {
            assert(more.drop_last() == seq![LINE_FEED]);
            assert(more.drop_last().drop_last() == Seq::<u8>::empty());
            assert(run(initial(mid), more) == (initial(line_key), seq![LINE_FEED]));
        } else {
            assert(more.drop_last() == Seq::<u8>::empty());
            assert(run(initial(mid), more) == (initial(end), seq![p]));
        }
        assert(head + seq![p] == plain);
    }
}

/// Ciphering seven-bit bytes and decoding the result gives the bytes back.
pub proof fn lemma_round_trip(plain: Seq<u8>, key: u8)
    requires
        is_seven_bit(plain),
    ensures
        decoded(encoded(plain, key)) == plain,
{
    lemma_run_cipher_run(key, key, plain);
    assert(encoded(plain, key).skip(1) == cipher_run(key, key, plain).1);
}

/// The decoder of one obfuscated stream.
pub struct Decoder {
    key: u8,
    awaiting_key: bool,
}

impl View for Decoder {
    type V = State;

    closed spec fn view(&self) -> State {
        State { key: self.key, awaiting_key: self.awaiting_key }
    }
}

impl Decoder {
    /// Starts a decoder with the first byte of its source, which is the key of
    /// the first line. `None` stands for a source that ended before any byte.
    pub fn new(first: Option<u8>) -> (r: Result<Decoder, DecodeError>)
        ensures
            match first {
                Some(key) => r matches Ok(d) && d@ == initial(key),
                None => r == Err::<Decoder, DecodeError>(DecodeError::EmptyInput),
            },
    {
        match first {
            Some(key) => Ok(Decoder { key, awaiting_key: false }),
            None => Err(DecodeError::EmptyInput),
        }
    }

    /// Decodes the next chunk of the stream.
    pub fn read(&mut self, chunk: &[u8]) -> (out: Vec<u8>)
        ensures
            (final(self)@, out@) == run(old(self)@, chunk@),
    {
        let mut out: Vec<u8> = Vec::new();
        let mut i: usize = 0;
        while i < chunk.len()
            invariant
                0 <= i <= chunk@.len(),
                (self@, out@) == run(old(self)@, chunk@.take(i as int)),
            decreases chunk@.len() - i,
        {
            let c = chunk[i];
            proof {
                assert(chunk@.take(i + 1).drop_last() == chunk@.take(i as int));
                assert(chunk@.take(i + 1).last() == c);
            }
            if self.awaiting_key {
                self.key = c;
                self.awaiting_key = false;
            } else if c == LINE_FEED {
                out.push(c);
                self.awaiting_key = true;
            } else if c < FIRST_CIPHERED {
                out.push(c);
            } else {
                out.push((c ^ self.key) & LOW_BITS);
                self.key = self.key.wrapping_add(1);
            }
            i += 1;
        }
        proof {
            assert(chunk@.take(i as int) == chunk@);
        }
        out
    }
}

/// Obfuscates `plain` so that every line starts with the key byte `key`.
pub fn encode(plain: &[u8], key: u8) -> (out: Vec<u8>)
    ensures
        out@ == encoded(plain@, key),
{
    let mut out: Vec<u8> = Vec::new();
    out.push(key);
    let mut current: u8 = key;
    let mut i: usize = 0;
    while i < plain.len()
        invariant
            0 <= i <= plain@.len(),
            (current, out@.skip(1)) == cipher_run(key, key, plain@.take(i as int)),
            out@.len() > 0,
            out@[0] == key,
        decreases plain@.len() - i,
    {
        let p = plain[i];
        let ghost before = out@;
        proof {
            assert(plain@.take(i + 1).drop_last() == plain@.take(i as int));
            assert(plain@.take(i + 1).last() == p);
        }
        if p == LINE_FEED {
            out.push(LINE_FEED);
            out.push(key);
            current = key;
            proof {
                assert(out@.skip(1) == before.skip(1) + seq![LINE_FEED, key]);
            }
        } else if p < FIRST_CIPHERED {
            out.push(p);
            proof {
                assert(out@.skip(1) == before.skip(1) + seq![p]);
            }
        } else {
            let c = p ^ current;
            let m = if c < FIRST_CIPHERED {
                c | 0x80
            } else {
                c
            };
            out.push(m);
            current = current.wrapping_add(1);
            proof {
                assert(out@.skip(1) == before.skip(1) + seq![m]);
            }
        }
        i += 1;
    }
    proof {
        assert(plain@.take(i as int) == plain@);
        assert(out@ == seq![key] + out@.skip(1));
    }
    out
}

/// Decodes a whole obfuscated source into text. Every character of the text
/// is a seven-bit character.
pub fn decode(input: &[u8]) -> (r: Result<String, DecodeError>)
    ensures
        match r {
            Ok(text) => input@.len() > 0 && text@ == text_of(decoded(input@)),
            Err(e) => input@.len() == 0 && e == DecodeError::EmptyInput,
        },
        is_seven_bit(decoded(input@)),
{
    proof {
        lemma_run_seven_bit(initial(input@[0]), input@.skip(1));
    }
    if input.len() == 0 {
        return Err(DecodeError::EmptyInput);
    }
    let mut decoder = Decoder { key: input[0], awaiting_key: false };
    let rest = vstd::slice::slice_subrange(input, 1, input.len());
    let plain = decoder.read(rest);
    proof {
        assert(rest@ == input@.skip(1));
    }
    let mut text: Vec<char> = Vec::new();
    let mut i: usize = 0;
    while i < plain.len()
        invariant
            0 <= i <= plain@.len(),
            text@ == text_of(plain@).take(i as int),
        decreases plain@.len() - i,
    {
        text.push(plain[i] as char);
        i += 1;
    }
    Ok(string_of(text.as_slice()))
}

} // verus!
