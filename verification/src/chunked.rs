//! The chunked transfer coding: a body as a series of chunks, each with its
//! length in front of it, up to a chunk of length zero.

use vstd::prelude::*;

verus! {

/// Where in a chunked body a decoder stands.
#[derive(Clone, Copy, Debug, PartialEq, Eq, Structural)]
pub enum ChunkState {
    /// In the length of a chunk, which is `size` so far; `any` says that there
    /// was a digit.
    Size { size: u64, any: bool },
    /// Behind the length, in what may follow it on its line.
    Extension { size: u64 },
    /// At the line feed behind the length.
    SizeEnd { size: u64 },
    /// In the data of a chunk, of which `left` bytes are to come.
    Data { left: u64 },
    /// At the carriage return behind the data.
    DataReturn,
    /// At the line feed behind the data.
    DataEnd,
    /// At the start of a line behind the last chunk.
    Trailer,
    /// In a line behind the last chunk.
    TrailerLine,
    /// At the line feed of such a line.
    TrailerEnd,
    /// At the line feed that ends the body.
    LastEnd,
    /// Behind the body.
    Done,
    /// This is no chunked body.
    Broken,
}

/// The state at the start of a chunked body.
pub open spec fn start() -> ChunkState {
    ChunkState::Size { size: 0, any: false }
}

/// The value of a hexadecimal digit.
pub open spec fn hex_value(b: u8) -> Option<u64> {
    if 48 <= b <= 57 {
        Some((b - 48) as u64)
    } else if 65 <= b <= 70 {
        Some((b - 55) as u64)
    } else if 97 <= b <= 102 {
        Some((b - 87) as u64)
    } else {
        None
    }
}

/// `state` where `b` is the byte that has to come, else broken.
pub open spec fn expecting(b: u8, expected: u8, state: ChunkState) -> ChunkState {
    if b == expected {
        state
    } else {
        ChunkState::Broken
    }
}

/// The state behind one more byte.
pub open spec fn after_byte(state: ChunkState, b: u8) -> ChunkState {
    match state {
        ChunkState::Size { size, any } => match hex_value(b) {
            Some(d) => if size > 0x0fff_ffff_ffff_ffff {
                ChunkState::Broken
            } else {
                ChunkState::Size { size: (size * 16 + d) as u64, any: true }
            },
            None => if !any {
                ChunkState::Broken
            } else if b == 13 {
                ChunkState::SizeEnd { size }
            } else if b == 59 || b == 32 || b == 9 {
                ChunkState::Extension { size }
            } else {
                ChunkState::Broken
            },
        },
        ChunkState::Extension { size } => if b == 13 {
            ChunkState::SizeEnd { size }
        } else if b == 10 {
            ChunkState::Broken
        } else {
            state
        },
        ChunkState::SizeEnd { size } => expecting(
            b,
            10,
            if size == 0 {
                ChunkState::Trailer
            } else {
                ChunkState::Data { left: size }
            },
        ),
        ChunkState::Data { left } => if left <= 1 {
            ChunkState::DataReturn
        } else {
            ChunkState::Data { left: (left - 1) as u64 }
        },
        ChunkState::DataReturn => expecting(b, 13, ChunkState::DataEnd),
        ChunkState::DataEnd => expecting(b, 10, start()),
        ChunkState::Trailer => if b == 13 {
            ChunkState::LastEnd
        } else if b == 10 {
            ChunkState::Broken
        } else {
            ChunkState::TrailerLine
        },
        ChunkState::TrailerLine => if b == 13 {
            ChunkState::TrailerEnd
        } else if b == 10 {
            ChunkState::Broken
        } else {
            state
        },
        ChunkState::TrailerEnd => expecting(b, 10, ChunkState::Trailer),
        ChunkState::LastEnd => expecting(b, 10, ChunkState::Done),
        ChunkState::Done | ChunkState::Broken => state,
    }
}

/// Whether a decoder takes no more bytes.
pub open spec fn stopped(state: ChunkState) -> bool {
    state is Done || state is Broken
}

/// What a decoder makes of some bytes: the state behind them, the data among
/// them, and those beyond the end of the body.
pub open spec fn decoded(state: ChunkState, bytes: Seq<u8>) -> (ChunkState, Seq<u8>, Seq<u8>)
    decreases bytes.len(),
{
    if bytes.len() == 0 || stopped(state) {
        (state, Seq::empty(), bytes)
    } else {
        let (end, data, rest) = decoded(after_byte(state, bytes[0]), bytes.skip(1));
        if state is Data {
            (end, seq![bytes[0]] + data, rest)
        } else {
            (end, data, rest)
        }
    }
}

fn hex_digit(b: u8) -> (r: Option<u64>)
    ensures
        r == hex_value(b),
        r is Some ==> r->0 < 16,
{
    if 48 <= b && b <= 57 {
        Some((b - 48) as u64)
    } else if 65 <= b && b <= 70 {
        Some((b - 55) as u64)
    } else if 97 <= b && b <= 102 {
        Some((b - 87) as u64)
    } else {
        None
    }
}

impl ChunkState {
    /// The state at the start of a chunked body.
    pub fn new() -> (s: ChunkState)
        ensures
            s == start(),
    {
        ChunkState::Size { size: 0, any: false }
    }

    fn expect(b: u8, expected: u8, state: ChunkState) -> (s: ChunkState)
        ensures
            s == expecting(b, expected, state),
    {
        if b == expected {
            state
        } else {
            ChunkState::Broken
        }
    }

    /// The state behind one more byte.
    fn step(self, b: u8) -> (s: ChunkState)
        ensures
            s == after_byte(self, b),
    {
        match self {
            ChunkState::Size { size, any } => match hex_digit(b) {
                Some(d) => if size > 0x0fff_ffff_ffff_ffff {
                    ChunkState::Broken
                } else {
                    ChunkState::Size { size: size * 16 + d, any: true }
                },
                None => if !any {
                    ChunkState::Broken
                } else if b == 13 {
                    ChunkState::SizeEnd { size }
                } else if b == 59 || b == 32 || b == 9 {
                    ChunkState::Extension { size }
                } else {
                    ChunkState::Broken
                },
            },
            ChunkState::Extension { size } => if b == 13 {
                ChunkState::SizeEnd { size }
            } else if b == 10 {
                ChunkState::Broken
            } else {
                self
            },
            ChunkState::SizeEnd { size } => ChunkState::expect(
                b,
                10,
                if size == 0 {
                    ChunkState::Trailer
                } else {
                    ChunkState::Data { left: size }
                },
            ),
            ChunkState::Data { left } => if left <= 1 {
                ChunkState::DataReturn
            } else {
                ChunkState::Data { left: left - 1 }
            },
            ChunkState::DataReturn => ChunkState::expect(b, 13, ChunkState::DataEnd),
            ChunkState::DataEnd => ChunkState::expect(b, 10, ChunkState::new()),
            ChunkState::Trailer => if b == 13 {
                ChunkState::LastEnd
            } else if b == 10 {
                ChunkState::Broken
            } else {
                ChunkState::TrailerLine
            },
            ChunkState::TrailerLine => if b == 13 {
                ChunkState::TrailerEnd
            } else if b == 10 {
                ChunkState::Broken
            } else {
                self
            },
            ChunkState::TrailerEnd => ChunkState::expect(b, 10, ChunkState::Trailer),
            ChunkState::LastEnd => ChunkState::expect(b, 10, ChunkState::Done),
            ChunkState::Done | ChunkState::Broken => self,
        }
    }

    /// Whether the decoder takes no more bytes.
    pub fn has_stopped(self) -> (b: bool)
        ensures
            b == stopped(self),
    {
        match self {
            ChunkState::Done | ChunkState::Broken => true,
            _ => false,
        }
    }

    /// Decodes `bytes`: the state behind them, the data among them, and how many
    /// of them belong to the body.
    pub fn decode(self, bytes: &[u8]) -> (r: (ChunkState, Vec<u8>, usize))
        ensures
            r.2 <= bytes@.len(),
            (r.0, r.1@, bytes@.skip(r.2 as int)) == decoded(self, bytes@),
    {
        let mut state = self;
        let mut data: Vec<u8> = Vec::new();
        let mut i: usize = 0;
        let n = bytes.len();
        assert(bytes@.skip(0) =~= bytes@);
        let ghost whole = decoded(self, bytes@);
        assert(data@ + whole.1 =~= whole.1);
        while i < n && !state.has_stopped()
            invariant
                n == bytes@.len(),
                i <= n,
                whole == decoded(self, bytes@),
                whole.0 == decoded(state, bytes@.skip(i as int)).0,
                whole.1 == data@ + decoded(state, bytes@.skip(i as int)).1,
                whole.2 == decoded(state, bytes@.skip(i as int)).2,
            decreases n - i,
        {
            let b = bytes[i];
            let ghost before = data@;
            let ghost tail = bytes@.skip(i as int);
            assert(tail.skip(1) =~= bytes@.skip(i + 1));
            assert(tail[0] == b);
            if let ChunkState::Data { .. } = state {
                data.push(b);
            }
            state = state.step(b);
            i += 1;
            assert(whole.1 =~= data@ + decoded(state, bytes@.skip(i as int)).1);
        }
        assert(data@ + Seq::<u8>::empty() =~= data@);
        (state, data, i)
    }
}

// ---------------------------------------------------------------------------
// Laws
// ---------------------------------------------------------------------------

/// Bytes can be decoded piece by piece.
pub proof fn law_decoding_goes_piece_by_piece(state: ChunkState, a: Seq<u8>, b: Seq<u8>)
    ensures
        ({
            let (mid, x, r) = decoded(state, a);
            let (end, y, s) = decoded(mid, b);
            if stopped(mid) {
                decoded(state, a + b) == (mid, x, r + b)
            } else {
                r.len() == 0 && decoded(state, a + b) == (end, x + y, s)
            }
        }),
    decreases a.len(),
{
    let none = Seq::<u8>::empty();
    if a.len() == 0 {
        assert(a + b =~= b);
        assert(none + decoded(state, b).1 =~= decoded(state, b).1);
    } else if stopped(state) {
    } else {
        let next = after_byte(state, a[0]);
        law_decoding_goes_piece_by_piece(next, a.skip(1), b);
        assert((a + b).skip(1) =~= a.skip(1) + b);
        let (mid, x, r) = decoded(next, a.skip(1));
        let y = decoded(mid, b).1;
        assert(seq![a[0]] + (x + y) =~= (seq![a[0]] + x) + y);
    }
}

/// What is data is no longer left.
pub proof fn lemma_decoded_is_shorter(state: ChunkState, bytes: Seq<u8>)
    ensures
        decoded(state, bytes).1.len() + decoded(state, bytes).2.len() <= bytes.len(),
    decreases bytes.len(),
{
    if bytes.len() > 0 && !stopped(state) {
        lemma_decoded_is_shorter(after_byte(state, bytes[0]), bytes.skip(1));
    }
}

/// A hexadecimal digit as a byte.
pub open spec fn hex_byte(d: nat) -> u8 {
    if d < 10 {
        (48 + d) as u8
    } else {
        (87 + d) as u8
    }
}

/// A number in hexadecimal.
pub open spec fn hex(n: nat) -> Seq<u8>
    decreases n,
{
    if n < 16 {
        seq![hex_byte(n)]
    } else {
        hex(n / 16).push(hex_byte(n % 16))
    }
}

/// One chunk: its length, its data, and the line ends behind them.
pub open spec fn chunk(data: Seq<u8>) -> Seq<u8> {
    hex(data.len()) + seq![13u8, 10u8] + data + seq![13u8, 10u8]
}

/// A body in chunks.
pub open spec fn encoded(chunks: Seq<Seq<u8>>) -> Seq<u8>
    decreases chunks.len(),
{
    if chunks.len() == 0 {
        seq![48u8, 13u8, 10u8, 13u8, 10u8]
    } else {
        chunk(chunks[0]) + encoded(chunks.skip(1))
    }
}

/// The data of chunks.
pub open spec fn joined(chunks: Seq<Seq<u8>>) -> Seq<u8>
    decreases chunks.len(),
{
    if chunks.len() == 0 {
        Seq::empty()
    } else {
        chunks[0] + joined(chunks.skip(1))
    }
}

/// One byte that is not data, and then the others.
proof fn lemma_one(state: ChunkState, b: u8, rest: Seq<u8>)
    requires
        !stopped(state),
        !(state is Data),
    ensures
        decoded(state, seq![b] + rest) == decoded(after_byte(state, b), rest),
{
    assert((seq![b] + rest).skip(1) =~= rest);
}

proof fn lemma_hex(n: nat, rest: Seq<u8>)
    requires
        n <= u64::MAX,
    ensures
        decoded(start(), hex(n) + rest) == decoded(
            ChunkState::Size { size: n as u64, any: true },
            rest,
        ),
    decreases n,
{
    if n < 16 {
        lemma_one(start(), hex_byte(n), rest);
    } else {
        let d = hex_byte(n % 16);
        assert(hex(n) + rest =~= hex(n / 16) + (seq![d] + rest));
        lemma_hex(n / 16, seq![d] + rest);
        lemma_one(ChunkState::Size { size: (n / 16) as u64, any: true }, d, rest);
    }
}

proof fn lemma_data(data: Seq<u8>, rest: Seq<u8>)
    requires
        0 < data.len() <= u64::MAX,
    ensures
        ({
            let (end, more, beyond) = decoded(ChunkState::DataReturn, rest);
            decoded(ChunkState::Data { left: data.len() as u64 }, data + rest) == (
                end,
                data + more,
                beyond,
            )
        }),
    decreases data.len(),
{
    let more = decoded(ChunkState::DataReturn, rest).1;
    let tail = data.skip(1);
    assert((data + rest).skip(1) =~= tail + rest);
    if data.len() == 1 {
        assert(tail + rest =~= rest);
        assert(seq![data[0]] + more =~= data + more);
    } else {
        lemma_data(tail, rest);
        assert(seq![data[0]] + (tail + more) =~= data + more);
    }
}

/// A body in chunks decodes to the data of its chunks, and ends right behind
/// them.
pub proof fn law_chunks_decode_to_their_data(chunks: Seq<Seq<u8>>, beyond: Seq<u8>)
    requires
        forall|i: int| 0 <= i < chunks.len() ==> 0 < (#[trigger] chunks[i]).len() <= u64::MAX,
    ensures
        decoded(start(), encoded(chunks) + beyond) == (ChunkState::Done, joined(chunks), beyond),
    decreases chunks.len(),
{
    if chunks.len() == 0 {
        let t4 = seq![10u8] + beyond;
        let t3 = seq![13u8] + t4;
        let t2 = seq![10u8] + t3;
        let t1 = seq![13u8] + t2;
        assert(encoded(chunks) + beyond =~= seq![48u8] + t1);
        lemma_one(start(), 48, t1);
        lemma_one(ChunkState::Size { size: 0, any: true }, 13, t2);
        lemma_one(ChunkState::SizeEnd { size: 0 }, 10, t3);
        lemma_one(ChunkState::Trailer, 13, t4);
        lemma_one(ChunkState::LastEnd, 10, beyond);
    } else {
        let data = chunks[0];
        let tail = chunks.skip(1);
        assert forall|i: int| 0 <= i < tail.len() implies 0 < (#[trigger] tail[i]).len()
            <= u64::MAX by {
            assert(tail[i] == chunks[i + 1]);
        }
        law_chunks_decode_to_their_data(tail, beyond);
        let n = data.len();
        let rest = encoded(tail) + beyond;
        let t4 = seq![10u8] + rest;
        let t3 = seq![13u8] + t4;
        let t2 = data + t3;
        let t1 = seq![10u8] + t2;
        let t0 = seq![13u8] + t1;
        assert(encoded(chunks) + beyond =~= hex(n) + t0);
        lemma_hex(n, t0);
        lemma_one(ChunkState::Size { size: n as u64, any: true }, 13, t1);
        lemma_one(ChunkState::SizeEnd { size: n as u64 }, 10, t2);
        lemma_data(data, t3);
        lemma_one(ChunkState::DataReturn, 13, t4);
        lemma_one(ChunkState::DataEnd, 10, rest);
    }
}

/// Capitals count as small letters in a length.
pub proof fn law_lengths_are_read_in_capitals_or_not(size: u64, any: bool, k: u8)
    requires
        k < 6,
    ensures
        after_byte(ChunkState::Size { size, any }, (65 + k) as u8) == after_byte(
            ChunkState::Size { size, any },
            (97 + k) as u8,
        ),
{
}

/// What follows a length behind a semicolon or a blank, up to the end of its
/// line, is passed over.
pub proof fn law_extensions_are_passed_over(n: nat, mark: u8, ext: Seq<u8>, rest: Seq<u8>)
    requires
        n <= u64::MAX,
        mark == 59 || mark == 32 || mark == 9,
        forall|i: int| 0 <= i < ext.len() ==> #[trigger] ext[i] != 13 && ext[i] != 10,
    ensures
        decoded(start(), hex(n) + seq![mark] + ext + seq![13u8] + rest) == decoded(
            start(),
            hex(n) + seq![13u8] + rest,
        ),
{
    let tail = seq![13u8] + rest;
    let state = ChunkState::Size { size: n as u64, any: true };
    let inside = ChunkState::Extension { size: n as u64 };
    assert(hex(n) + seq![mark] + ext + seq![13u8] + rest =~= hex(n) + (seq![mark] + (ext + tail)));
    assert(hex(n) + seq![13u8] + rest =~= hex(n) + tail);
    lemma_hex(n, seq![mark] + (ext + tail));
    lemma_hex(n, tail);
    lemma_one(state, mark, ext + tail);
    lemma_extension(n as u64, ext, tail);
    lemma_one(state, 13, rest);
    lemma_one(inside, 13, rest);
}

proof fn lemma_extension(size: u64, ext: Seq<u8>, tail: Seq<u8>)
    requires
        forall|i: int| 0 <= i < ext.len() ==> #[trigger] ext[i] != 13 && ext[i] != 10,
    ensures
        decoded(ChunkState::Extension { size }, ext + tail) == decoded(
            ChunkState::Extension { size },
            tail,
        ),
    decreases ext.len(),
{
    if ext.len() == 0 {
        assert(ext + tail =~= tail);
    } else {
        let more = ext.skip(1);
        assert(ext + tail =~= seq![ext[0]] + (more + tail));
        lemma_one(ChunkState::Extension { size }, ext[0], more + tail);
        assert forall|i: int| 0 <= i < more.len() implies #[trigger] more[i] != 13 && more[i]
            != 10 by {
            assert(more[i] == ext[i + 1]);
        }
        lemma_extension(size, more, tail);
    }
}

/// Lines behind the last chunk are passed over.
pub proof fn law_trailers_are_passed_over(line: Seq<u8>, rest: Seq<u8>)
    requires
        line.len() > 0,
        forall|i: int| 0 <= i < line.len() ==> #[trigger] line[i] != 13 && line[i] != 10,
    ensures
        decoded(ChunkState::Trailer, line + seq![13u8, 10u8] + rest) == decoded(
            ChunkState::Trailer,
            rest,
        ),
        decoded(ChunkState::Trailer, seq![13u8, 10u8] + rest) == (
            ChunkState::Done,
            Seq::<u8>::empty(),
            rest,
        ),
{
    let more = line.skip(1);
    let end = seq![10u8] + rest;
    let tail = seq![13u8] + end;
    assert(line + seq![13u8, 10u8] + rest =~= seq![line[0]] + (more + tail));
    lemma_one(ChunkState::Trailer, line[0], more + tail);
    assert forall|i: int| 0 <= i < more.len() implies #[trigger] more[i] != 13 && more[i]
        != 10 by {
        assert(more[i] == line[i + 1]);
    }
    lemma_trailer(more, tail);
    lemma_one(ChunkState::TrailerLine, 13, end);
    lemma_one(ChunkState::TrailerEnd, 10, rest);
    assert(seq![13u8, 10u8] + rest =~= tail);
    lemma_one(ChunkState::Trailer, 13, end);
    lemma_one(ChunkState::LastEnd, 10, rest);
}

proof fn lemma_trailer(line: Seq<u8>, tail: Seq<u8>)
    requires
        forall|i: int| 0 <= i < line.len() ==> #[trigger] line[i] != 13 && line[i] != 10,
    ensures
        decoded(ChunkState::TrailerLine, line + tail) == decoded(ChunkState::TrailerLine, tail),
    decreases line.len(),
{
    if line.len() == 0 {
        assert(line + tail =~= tail);
    } else {
        let more = line.skip(1);
        assert(line + tail =~= seq![line[0]] + (more + tail));
        lemma_one(ChunkState::TrailerLine, line[0], more + tail);
        assert forall|i: int| 0 <= i < more.len() implies #[trigger] more[i] != 13 && more[i]
            != 10 by {
            assert(more[i] == line[i + 1]);
        }
        lemma_trailer(more, tail);
    }
}

/// A chunk without a length, or with more or less data than its length says, is
/// no chunk; nor is one whose length does not fit in 64 bits.
pub proof fn law_broken_chunks_are_noticed(b: u8, data: Seq<u8>, size: u64, rest: Seq<u8>)
    ensures
        !(48 <= b <= 57 || 65 <= b <= 70 || 97 <= b <= 102) ==> decoded(start(), seq![b] + rest)
            == (ChunkState::Broken, Seq::<u8>::empty(), rest),
        0 < data.len() <= u64::MAX && b != 13 ==> decoded(
            start(),
            hex(data.len()) + seq![13u8, 10u8] + data + seq![b] + rest,
        ) == (ChunkState::Broken, data, rest),
        size > 0x0fff_ffff_ffff_ffff && 48 <= b <= 57 ==> decoded(
            start(),
            hex(size as nat) + seq![b] + rest,
        ) == (ChunkState::Broken, Seq::<u8>::empty(), rest),
{
    lemma_one(start(), b, rest);
    if 0 < data.len() <= u64::MAX && b != 13 {
        let n = data.len();
        let t3 = seq![b] + rest;
        let t2 = data + t3;
        let t1 = seq![10u8] + t2;
        let t0 = seq![13u8] + t1;
        assert(hex(n) + seq![13u8, 10u8] + data + seq![b] + rest =~= hex(n) + t0);
        lemma_hex(n, t0);
        lemma_one(ChunkState::Size { size: n as u64, any: true }, 13, t1);
        lemma_one(ChunkState::SizeEnd { size: n as u64 }, 10, t2);
        lemma_data(data, t3);
        lemma_one(ChunkState::DataReturn, b, rest);
        assert(data + Seq::<u8>::empty() =~= data);
    }
    assert(hex(size as nat) + seq![b] + rest =~= hex(size as nat) + (seq![b] + rest));
    lemma_hex(size as nat, seq![b] + rest);
    lemma_one(ChunkState::Size { size, any: true }, b, rest);
}

/// Every line ends with a carriage return and a line feed: neither stands alone.
/// Behind the digits of a length only what sets off an extension may follow.
pub proof fn law_lines_end_properly(size: u64, b: u8)
    ensures
        b != 10 ==> after_byte(ChunkState::SizeEnd { size }, b) is Broken && after_byte(
            ChunkState::DataEnd,
            b,
        ) is Broken && after_byte(ChunkState::TrailerEnd, b) is Broken && after_byte(
            ChunkState::LastEnd,
            b,
        ) is Broken,
        after_byte(ChunkState::Extension { size }, 10) is Broken,
        after_byte(ChunkState::Trailer, 10) is Broken,
        after_byte(ChunkState::TrailerLine, 10) is Broken,
        !(48 <= b <= 57 || 65 <= b <= 70 || 97 <= b <= 102) && b != 13 && b != 59 && b != 32 && b
            != 9 ==> after_byte(ChunkState::Size { size, any: true }, b) is Broken,
{
}

/// Behind its end, and once it is broken, a body takes nothing more.
pub proof fn law_nothing_is_taken_behind_the_end(bytes: Seq<u8>)
    ensures
        decoded(ChunkState::Done, bytes) == (ChunkState::Done, Seq::<u8>::empty(), bytes),
        decoded(ChunkState::Broken, bytes) == (ChunkState::Broken, Seq::<u8>::empty(), bytes),
{
}

} // verus!
