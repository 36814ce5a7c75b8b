//! Decoding of compressed BFF record data.
//!
//! A compressed payload starts with its own symbol table: one byte giving the
//! number of tree levels plus one, one count byte per level, then the symbol
//! values of each level in ascending code order, with one extra synthetic
//! slot at the deepest level standing for the end-of-stream sentinel.  The
//! decoder rebuilds the canonical-code thresholds from the counts and then
//! walks the payload bit by bit, most significant bit first.
//!
//! The whole decode is specified as a mathematical function of the payload
//! bytes (`decoded_output`), and the streaming reader below is proved to hand
//! out exactly that sequence, whatever buffer sizes it is pulled with.

use crate::error::Error;
use vstd::prelude::*;

verus! {

/// A parsed symbol table, as the decoder uses it: per level the bound of the
/// corrupt-index check, the symbol values read, and the canonical-code
/// threshold below which a code is still an internal node.
#[verifier::ext_equal]
pub struct HuffTable {
    pub limits: Seq<int>,
    pub symbols: Seq<Seq<u8>>,
    pub inodes: Seq<int>,
}

/// What parsing the symbol table of a payload gives: the table and the
/// number of header bytes it occupied, or the way the header is bad.
pub enum TableParse {
    Parsed(HuffTable, int),
    Truncated,
    Bad,
}

/// The sum of the `count` bytes starting at `from`.
pub open spec fn sum_bytes(d: Seq<u8>, from: int, count: int) -> int
    decreases count,
{
    if count <= 0 {
        0
    } else {
        sum_bytes(d, from, count - 1) + d[from + count - 1]
    }
}

/// The count byte of level `i`.
pub open spec fn count_at(d: Seq<u8>, i: int) -> int {
    d[1 + i] as int
}

/// How many symbol bytes level `i` carries in the stream: its count byte,
/// plus one synthetic slot at the deepest level.
pub open spec fn read_count_at(d: Seq<u8>, levels: int, i: int) -> int {
    count_at(d, i) + if i == levels - 1 {
        1int
    } else {
        0int
    }
}

/// Where the symbol bytes of level `i` start.
pub open spec fn symbols_start(d: Seq<u8>, levels: int, i: int) -> int {
    1 + levels + sum_bytes(d, 1, i)
}

/// The per-level symbol counts with the synthetic sentinel slot counted
/// once at the deepest level: the bound of the corrupt-index check, and the
/// input of the threshold table.
pub open spec fn limits_of(d: Seq<u8>) -> Seq<int> {
    let levels = d[0] as int;
    Seq::new(levels as nat, |i: int| read_count_at(d, levels, i))
}

/// The symbol values of each level as stored in the stream.
pub open spec fn symbols_of(d: Seq<u8>) -> Seq<Seq<u8>> {
    let levels = d[0] as int;
    Seq::new(
        levels as nat,
        |i: int|
            d.subrange(
                symbols_start(d, levels, i),
                symbols_start(d, levels, i) + read_count_at(d, levels, i),
            ),
    )
}

/// The canonical-code threshold of level `i`: zero at the deepest level, and
/// half of the next level's threshold plus symbol bound above it.
pub open spec fn inodes_from(limits: Seq<int>, i: int) -> int
    decreases limits.len() - i,
{
    if i >= limits.len() - 1 {
        0
    } else {
        (inodes_from(limits, i + 1) + limits[i + 1]) / 2
    }
}

/// The complete table of a payload whose header is well formed.
pub open spec fn table_of(d: Seq<u8>) -> HuffTable {
    let levels = d[0] as int;
    HuffTable {
        limits: limits_of(d),
        symbols: symbols_of(d),
        inodes: Seq::new(levels as nat, |i: int| inodes_from(limits_of(d), i)),
    }
}

/// Parses the symbol table at the start of a compressed payload: the level
/// count byte, the per-level counts, the sum check against the byte-valued
/// alphabet, and the symbol bytes themselves.
pub open spec fn parse_table(d: Seq<u8>) -> TableParse {
    if d.len() < 1 {
        TableParse::Truncated
    } else if d[0] == 0 {
        TableParse::Bad
    } else {
        let levels = d[0] as int;
        if d.len() < 1 + levels {
            TableParse::Truncated
        } else if 1 + sum_bytes(d, 1, levels) > 256 {
            TableParse::Bad
        } else if d.len() < 2 + levels + sum_bytes(d, 1, levels) {
            TableParse::Truncated
        } else {
            TableParse::Parsed(table_of(d), 2 + levels + sum_bytes(d, 1, levels))
        }
    }
}

/// Bit `k` (most significant first) of a byte.
pub open spec fn bit_at(b: u8, k: int) -> bool {
    (b >> ((7 - k) as u8)) & 1 == 1
}

/// The bits of a byte sequence, most significant bit of each byte first.
pub open spec fn bits_of(bytes: Seq<u8>) -> Seq<bool> {
    Seq::new(bytes.len() * 8, |j: int| bit_at(bytes[j / 8], j % 8))
}

/// How a decode run ends: still inside a code (with the accumulator and
/// level reached), cleanly at the sentinel, or at one of the two corrupt
/// stream conditions.
pub enum DecodeEnd {
    More(int, int),
    Sentinel,
    CorruptIndex,
    CorruptLevel,
}

/// The outcome of feeding a bit sequence to the decoder: the symbols it
/// emits and how it ends.
pub struct DecodeRun {
    pub emitted: Seq<u8>,
    pub end: DecodeEnd,
}

/// Feeds `bits` to the decoder one by one, starting from accumulator `code`
/// at depth `level`.  After each bit, a code at or above the level's
/// threshold is a leaf: beyond the level's bound the stream is corrupt,
/// beyond the symbols read it is the end-of-stream sentinel, otherwise the
/// symbol is emitted and the walk restarts at the root.  Below the threshold
/// the walk descends one level, and below the deepest level the stream is
/// corrupt.
pub open spec fn run_bits(t: HuffTable, code: int, level: int, bits: Seq<bool>) -> DecodeRun
    decreases bits.len(),
{
    if bits.len() == 0 {
        DecodeRun { emitted: Seq::empty(), end: DecodeEnd::More(code, level) }
    } else {
        let c2 = 2 * code + if bits[0] {
            1int
        } else {
            0int
        };
        if c2 >= t.inodes[level] {
            let idx = c2 - t.inodes[level];
            if idx > t.limits[level] {
                DecodeRun { emitted: Seq::empty(), end: DecodeEnd::CorruptIndex }
            } else if idx >= t.symbols[level].len() {
                DecodeRun { emitted: Seq::empty(), end: DecodeEnd::Sentinel }
            } else {
                let rest = run_bits(t, 0, 0, bits.skip(1));
                DecodeRun { emitted: seq![t.symbols[level][idx]] + rest.emitted, end: rest.end }
            }
        } else {
            if level + 1 >= t.limits.len() {
                DecodeRun { emitted: Seq::empty(), end: DecodeEnd::CorruptLevel }
            } else {
                run_bits(t, c2, level + 1, bits.skip(1))
            }
        }
    }
}

/// Everything a well-formed compressed payload decodes to.
pub open spec fn decoded_output(d: Seq<u8>) -> Seq<u8> {
    match parse_table(d) {
        TableParse::Parsed(t, used) => run_bits(t, 0, 0, bits_of(d.skip(used))).emitted,
        _ => Seq::empty(),
    }
}

/// How decoding a well-formed compressed payload ends.
pub open spec fn decode_end(d: Seq<u8>) -> DecodeEnd {
    match parse_table(d) {
        TableParse::Parsed(t, used) => run_bits(t, 0, 0, bits_of(d.skip(used))).end,
        _ => DecodeEnd::More(0, 0),
    }
}

/// Decoding a concatenation: the first part runs as it does alone, and if it
/// ends still inside a code, the second part continues from that state.  A
/// first part that ends at the sentinel or at a corrupt condition decides
/// the whole run.
pub proof fn lemma_run_append(t: HuffTable, code: int, level: int, bits1: Seq<bool>, bits2: Seq<bool>)
    ensures
        ({
            let whole = run_bits(t, code, level, bits1 + bits2);
            let first = run_bits(t, code, level, bits1);
            match first.end {
                DecodeEnd::More(c2, l2) => {
                    let second = run_bits(t, c2, l2, bits2);
                    whole.emitted == first.emitted + second.emitted && whole.end == second.end
                },
                _ => whole.emitted == first.emitted && whole.end == first.end,
            }
        }),
    decreases bits1.len(),
{
    if bits1.len() == 0 {
        assert(bits1 + bits2 =~= bits2);
        let second = run_bits(t, code, level, bits2);
        assert(Seq::<u8>::empty() + second.emitted =~= second.emitted);
    } else {
        let all = bits1 + bits2;
        assert(all[0] == bits1[0]);
        assert(all.skip(1) =~= bits1.skip(1) + bits2);
        let c2 = 2 * code + if bits1[0] {
            1int
        } else {
            0int
        };
        if c2 >= t.inodes[level] {
            let idx = c2 - t.inodes[level];
            if idx > t.limits[level] {
            } else if idx >= t.symbols[level].len() {
            } else {
                lemma_run_append(t, 0, 0, bits1.skip(1), bits2);
                let sym = seq![t.symbols[level][idx]];
                let first_rest = run_bits(t, 0, 0, bits1.skip(1));
                match first_rest.end {
                    DecodeEnd::More(c3, l3) => {
                        let second = run_bits(t, c3, l3, bits2);
                        assert(sym + (first_rest.emitted + second.emitted) =~= (sym
                            + first_rest.emitted) + second.emitted);
                    },
                    _ => {},
                }
            }
        } else {
            if level + 1 >= t.limits.len() {
            } else {
                lemma_run_append(t, c2, level + 1, bits1.skip(1), bits2);
            }
        }
    }
}

/// Byte sums only grow with the number of bytes summed.
pub proof fn lemma_sum_bytes_mono(d: Seq<u8>, from: int, i: int, j: int)
    requires
        0 <= i <= j,
    ensures
        sum_bytes(d, from, i) <= sum_bytes(d, from, j),
    decreases j - i,
{
    if i < j {
        lemma_sum_bytes_mono(d, from, i, j - 1);
    }
}

/// Byte sums are never negative.
pub proof fn lemma_sum_bytes_nonneg(d: Seq<u8>, from: int, count: int)
    ensures
        sum_bytes(d, from, count) >= 0,
    decreases count,
{
    if count > 0 {
        lemma_sum_bytes_nonneg(d, from, count - 1);
    }
}

/// The two ways a stream can turn out corrupt while decoding.
#[derive(Debug, Clone, Copy, PartialEq, Eq, Structural)]
enum CorruptKind {
    Index,
    Level,
}

/// The run end that a corrupt condition stands for.
spec fn corrupt_end(k: CorruptKind) -> DecodeEnd {
    match k {
        CorruptKind::Index => DecodeEnd::CorruptIndex,
        CorruptKind::Level => DecodeEnd::CorruptLevel,
    }
}

/// A decoder for BFF file contents which is Huffman encoded.
///
/// It owns the whole compressed payload, parses the symbol table at its
/// front once, and then hands out decoded bytes through [`Self::read`] in
/// chunks of any size the caller asks for.
pub struct HuffmanDecoder {
    /// The compressed payload, symbol table included.
    input: Vec<u8>,
    /// Where the coded bits start: the byte after the symbol table.
    start: usize,
    /// The next input byte to consume.
    pos: usize,
    /// The code accumulator of the symbol being decoded.
    code: u16,
    /// The tree level of the symbol being decoded.
    level: usize,
    /// Per level, the bound of the corrupt-index check.
    symbolsin: Vec<u16>,
    /// Per level, the symbol values in ascending code order.
    tree: Vec<Vec<u8>>,
    /// Per level, the canonical-code threshold.
    inodesin: Vec<u16>,
    /// Decoded bytes an earlier pull could not take, front first.
    pending: Vec<u8>,
    /// How many of `pending` are already handed out.
    pending_next: usize,
    /// Whether decoding reached the sentinel or the end of the input.
    done: bool,
    /// The corrupt condition decoding ran into, if any.
    corrupt: Option<CorruptKind>,
    /// Everything handed out so far.
    delivered: Ghost<Seq<u8>>,
}

impl HuffmanDecoder {
    /// The compressed payload this decoder was made for.
    pub closed spec fn source(self) -> Seq<u8> {
        self.input@
    }

    /// Everything the decoder has handed out so far.
    pub closed spec fn delivered(self) -> Seq<u8> {
        self.delivered@
    }

    /// Everything the payload decodes to.
    pub open spec fn decoded(self) -> Seq<u8> {
        decoded_output(self.source())
    }

    /// Whether decoding has reached the sentinel or consumed all input.
    pub closed spec fn is_done(self) -> bool {
        self.done
    }

    /// Whether decoding found the stream corrupt.
    pub closed spec fn is_corrupt(self) -> bool {
        self.corrupt is Some
    }

    /// The parsed symbol table.
    closed spec fn table(self) -> HuffTable {
        HuffTable {
            limits: self.symbolsin@.map_values(|x: u16| x as int),
            symbols: self.tree@.map_values(|v: Vec<u8>| v@),
            inodes: self.inodesin@.map_values(|x: u16| x as int),
        }
    }

    /// Decoded bytes waiting for the next pull.
    closed spec fn pending_view(self) -> Seq<u8> {
        self.pending@.skip(self.pending_next as int)
    }

    /// Everything decoded so far, handed out or still waiting.
    closed spec fn produced(self) -> Seq<u8> {
        self.delivered@ + self.pending_view()
    }

    /// The coded bits consumed so far.
    closed spec fn consumed_bits(self) -> Seq<bool> {
        bits_of(self.input@.skip(self.start as int)).take(8 * (self.pos - self.start))
    }

    /// The internal invariant: the stored table is the parse of the input,
    /// the cursor sits inside the input, and the decoder state is exactly
    /// where replaying the consumed bits leaves the specification decoder.
    pub closed spec fn wf(self) -> bool {
        &&& parse_table(self.input@) matches TableParse::Parsed(t, used) && t == self.table()
            && used == self.start as int
        &&& self.start <= self.pos <= self.input@.len()
        &&& self.pending_next <= self.pending@.len()
        &&& self.symbolsin@.len() == self.tree@.len()
        &&& self.inodesin@.len() == self.symbolsin@.len()
        &&& self.symbolsin@.len() >= 1
        &&& forall|i: int|
            0 <= i < self.inodesin@.len() ==> #[trigger] self.inodesin@[i] <= 257
        &&& forall|i: int|
            0 <= i < self.symbolsin@.len() ==> #[trigger] self.symbolsin@[i] <= 257
        &&& match self.corrupt {
            Some(k) => decode_end(self.input@) == corrupt_end(k),
            None => if self.done {
                &&& self.produced() == decoded_output(self.input@)
                &&& !(decode_end(self.input@) is CorruptIndex)
                &&& !(decode_end(self.input@) is CorruptLevel)
            } else {
                &&& self.level < self.symbolsin@.len()
                &&& self.code <= 256
                &&& run_bits(self.table(), 0, 0, self.consumed_bits()).emitted == self.produced()
                &&& run_bits(self.table(), 0, 0, self.consumed_bits()).end == DecodeEnd::More(
                    self.code as int,
                    self.level as int,
                )
            },
        }
    }

    /// Create a new decoder over one record's compressed payload.
    ///
    /// Parses the symbol table at the front of the payload.  A payload too
    /// short for its own table is rejected as truncated input; a level count
    /// of zero or a table announcing more than the 256 byte values is a bad
    /// symbol table.
    pub fn new(input: Vec<u8>) -> (r: Result<HuffmanDecoder, Error>)
        ensures
            match r {
                Ok(d) => {
                    &&& d.wf()
                    &&& d.source() == input@
                    &&& d.delivered() == Seq::<u8>::empty()
                    &&& !d.is_corrupt()
                    &&& !d.is_done()
                    &&& parse_table(input@) matches TableParse::Parsed(_, _)
                },
                Err(Error::UnexpectedEndOfInput) => parse_table(input@)
                    is Truncated,
                Err(Error::BadSymbolTable) => parse_table(input@) is Bad,
                Err(_) => false,
            },
    {
        let ghost d = input@;
        let total_len = input.len();
        proof {
            assert(d.len() <= usize::MAX);
        }
        if total_len < 1 {
            return Err(Error::UnexpectedEndOfInput);
        }
        let levels_byte = input[0];
        if levels_byte == 0 {
            return Err(Error::BadSymbolTable);
        }
        let levels = levels_byte as usize;
        if input.len() < 1 + levels {
            return Err(Error::UnexpectedEndOfInput);
        }
        // The count byte of each level, and their sum.
        let mut counts: Vec<u16> = Vec::new();
        let mut sum: u32 = 0;
        let mut i: usize = 0;
        while i < levels
            invariant
                i <= levels,
                levels == d[0],
                1 + levels <= d.len(),
                input@ == d,
                counts@.len() == i,
                forall|j: int| 0 <= j < i ==> #[trigger] counts@[j] == d[1 + j],
                sum == sum_bytes(d, 1, i as int),
                sum <= 255 * i,
            decreases levels - i,
        {
            let c = input[1 + i];
            counts.push(c as u16);
            sum = sum + c as u32;
            i = i + 1;
        }
        if 1 + sum > 256 {
            return Err(Error::BadSymbolTable);
        }
        let needed = 2 + levels + sum as usize;
        if input.len() < needed {
            return Err(Error::UnexpectedEndOfInput);
        }
        proof {
            assert(parse_table(d) == TableParse::Parsed(table_of(d), needed as int));
        }
        // One synthetic slot is read at the deepest level.
        let deepest = levels - 1;
        let c0 = counts[deepest];
        counts[deepest] = c0 + 1;
        proof {
            assert(forall|j: int|
                0 <= j < levels ==> #[trigger] counts@[j] as int == read_count_at(
                    d,
                    levels as int,
                    j,
                ));
        }
        // The symbol values of each level, in stream order.
        let mut tree: Vec<Vec<u8>> = Vec::new();
        let mut q: usize = 1 + levels;
        let mut lv: usize = 0;
        while lv < levels
            invariant
                lv <= levels,
                levels == d[0],
                1 <= levels,
                input@ == d,
                d.len() <= usize::MAX,
                needed == 2 + levels + sum_bytes(d, 1, levels as int),
                needed <= d.len(),
                counts@.len() == levels,
                forall|j: int|
                    0 <= j < levels ==> #[trigger] counts@[j] as int == read_count_at(
                        d,
                        levels as int,
                        j,
                    ),
                tree@.len() == lv,
                forall|j: int|
                    0 <= j < lv ==> #[trigger] tree@[j]@ == symbols_of(d)[j],
                q == 1 + levels + sum_bytes(d, 1, lv as int) + if lv == levels {
                    1int
                } else {
                    0int
                },
            decreases levels - lv,
        {
            proof {
                lemma_sum_bytes_nonneg(d, 1, lv as int);
                lemma_sum_bytes_mono(d, 1, lv as int + 1, levels as int);
            }
            let cnt = counts[lv] as usize;
            let mut sym: Vec<u8> = Vec::new();
            let mut k: usize = 0;
            while k < cnt
                invariant
                    k <= cnt,
                    input@ == d,
                    d.len() <= usize::MAX,
                    q + cnt <= d.len(),
                    sym@.len() == k,
                    sym@ =~= d.subrange(q as int, q as int + k as int),
                decreases cnt - k,
            {
                sym.push(input[q + k]);
                proof {
                    assert(sym@ =~= d.subrange(q as int, q as int + k as int + 1));
                }
                k = k + 1;
            }
            proof {
                assert(symbols_of(d)[lv as int] == d.subrange(
                    symbols_start(d, levels as int, lv as int),
                    symbols_start(d, levels as int, lv as int) + read_count_at(
                        d,
                        levels as int,
                        lv as int,
                    ),
                ));
            }
            tree.push(sym);
            q = q + cnt;
            lv = lv + 1;
        }
        proof {
            assert(forall|j: int|
                0 <= j < levels ==> #[trigger] counts@[j] as int == limits_of(d)[j]);
            assert(forall|j: int| 0 <= j < levels ==> #[trigger] counts@[j] <= 257);
        }
        // The canonical-code thresholds, from the deepest level upward.
        let mut inodes: Vec<u16> = vec![0u16; levels];
        let mut up = deepest;
        proof {
            assert(limits_of(d).len() == levels);
            assert(inodes_from(limits_of(d), deepest as int) == 0);
        }
        while up > 0
            invariant
                up < levels,
                levels == d[0],
                counts@.len() == levels,
                inodes@.len() == levels,
                forall|j: int|
                    0 <= j < levels ==> #[trigger] counts@[j] as int == limits_of(d)[j],
                forall|j: int| 0 <= j < levels ==> #[trigger] counts@[j] <= 257,
                forall|j: int|
                    up <= j < levels ==> #[trigger] inodes@[j] as int == inodes_from(
                        limits_of(d),
                        j,
                    ),
                forall|j: int| 0 <= j < levels ==> #[trigger] inodes@[j] <= 257,
            decreases up,
        {
            up = up - 1;
            let v = (inodes[up + 1] + counts[up + 1]) / 2;
            inodes[up] = v;
            proof {
                assert(inodes_from(limits_of(d), up as int) == (inodes_from(
                    limits_of(d),
                    up as int + 1,
                ) + limits_of(d)[up as int + 1]) / 2);
            }
        }
        let decoder = HuffmanDecoder {
            input,
            start: needed,
            pos: needed,
            code: 0,
            level: 0,
            symbolsin: counts,
            tree,
            inodesin: inodes,
            pending: Vec::new(),
            pending_next: 0,
            done: false,
            corrupt: None,
            delivered: Ghost(Seq::empty()),
        };
        proof {
            assert(decoder.table().limits =~= limits_of(d));
            assert(decoder.table().symbols =~= symbols_of(d));
            assert(decoder.table().inodes =~= table_of(d).inodes);
            assert(decoder.table() =~= table_of(d));
            assert(decoder.consumed_bits() =~= Seq::<bool>::empty());
            assert(decoder.pending_view() =~= Seq::<u8>::empty());
            assert(decoder.produced() =~= Seq::<u8>::empty());
        }
        Ok(decoder)
    }

    /// Pull up to `want` decoded bytes.
    ///
    /// Bytes decoded beyond `want` while finishing an input byte are kept
    /// and handed out by the next pull, so pulls of any sizes concatenate to
    /// the same decoded stream.  A pull shorter than `want` means decoding is
    /// finished: the sentinel was reached or the input is exhausted, and
    /// everything handed out so far is the whole decoded payload.  A corrupt
    /// stream gives the matching error, on this and every later pull.
    pub fn read(&mut self, want: usize) -> (r: Result<Vec<u8>, Error>)
        requires
            old(self).wf(),
        ensures
            final(self).wf(),
            final(self).source() == old(self).source(),
            match r {
                Ok(out) => {
                    &&& out@.len() <= want
                    &&& final(self).delivered() == old(self).delivered() + out@
                    &&& !final(self).is_corrupt()
                    &&& out@.len() < want ==> final(self).is_done() && final(self).delivered()
                        == final(self).decoded()
                },
                Err(e) => {
                    &&& final(self).delivered() == old(self).delivered()
                    &&& final(self).is_corrupt()
                    &&& match e {
                        Error::InvalidLevelIndex => decode_end(old(self).source())
                            is CorruptIndex,
                        Error::InvalidTreelevel => decode_end(old(self).source())
                            is CorruptLevel,
                        _ => false,
                    }
                },
            },
    {
        match self.corrupt {
            Some(CorruptKind::Index) => {
                return Err(Error::InvalidLevelIndex);
            },
            Some(CorruptKind::Level) => {
                return Err(Error::InvalidTreelevel);
            },
            None => {},
        }
        let ghost base = self.delivered@;
        let ghost src = self.input@;
        let ghost g_start = self.start;
        let ghost t = self.table();
        let ghost all_bits = bits_of(src.skip(g_start as int));
        let mut out: Vec<u8> = Vec::new();
        // Hand out what an earlier pull left behind.
        let ghost entry_next = self.pending_next;
        while self.pending_next < self.pending.len() && out.len() < want
            invariant
                self.input@ == old(self).input@,
                self.start == old(self).start,
                self.pos == old(self).pos,
                self.code == old(self).code,
                self.level == old(self).level,
                self.symbolsin@ == old(self).symbolsin@,
                self.tree@ == old(self).tree@,
                self.inodesin@ == old(self).inodesin@,
                self.pending@ == old(self).pending@,
                self.done == old(self).done,
                self.corrupt == old(self).corrupt,
                self.delivered@ == old(self).delivered@,
                entry_next <= self.pending_next <= self.pending@.len(),
                out@ =~= self.pending@.subrange(entry_next as int, self.pending_next as int),
                out@.len() <= want,
            decreases self.pending@.len() - self.pending_next,
        {
            let b = self.pending[self.pending_next];
            out.push(b);
            self.pending_next = self.pending_next + 1;
        }
        proof {
            assert(self.pending@.skip(entry_next as int) =~= self.pending@.subrange(
                entry_next as int,
                self.pending_next as int,
            ) + self.pending@.skip(self.pending_next as int));
            assert(base + out@ + self.pending_view() =~= old(self).produced());
        }
        if out.len() < want {
            // The backlog is empty; decode new bytes from the input.
            self.pending.clear();
            self.pending_next = 0;
            let input_len = self.input.len();
            proof {
                assert(src.len() == input_len);
                assert(self.pending_view() =~= Seq::<u8>::empty());
                assert(base + out@ + self.pending@ =~= old(self).produced());
            }
            while out.len() < want && !self.done
                invariant
                    self.input@ == src,
                    src == old(self).input@,
                    self.start == g_start,
                    g_start == old(self).start,
                    base == old(self).delivered@,
                    self.symbolsin@ == old(self).symbolsin@,
                    self.tree@ == old(self).tree@,
                    self.inodesin@ == old(self).inodesin@,
                    self.delivered@ == base,
                    self.table() == t,
                    t == old(self).table(),
                    all_bits == bits_of(src.skip(g_start as int)),
                    parse_table(src) matches TableParse::Parsed(pt, used) && pt == t && used
                        == g_start as int,
                    self.corrupt is None,
                    self.pending_next == 0,
                    g_start <= self.pos <= src.len(),
                    src.len() <= usize::MAX,
                    self.symbolsin@.len() == self.tree@.len(),
                    self.inodesin@.len() == self.symbolsin@.len(),
                    self.symbolsin@.len() >= 1,
                    forall|i: int|
                        0 <= i < self.inodesin@.len() ==> #[trigger] self.inodesin@[i] <= 257,
                    forall|i: int|
                        0 <= i < self.symbolsin@.len() ==> #[trigger] self.symbolsin@[i] <= 257,
                    out@.len() <= want,
                    self.pending@.len() > 0 ==> out@.len() == want,
                    if self.done {
                        &&& base + out@ + self.pending@ == decoded_output(src)
                        &&& !(decode_end(src) is CorruptIndex)
                        &&& !(decode_end(src) is CorruptLevel)
                    } else {
                        &&& self.level < self.symbolsin@.len()
                        &&& self.code <= 256
                        &&& run_bits(t, 0, 0, all_bits.take(8 * (self.pos - self.start))).emitted
                            == base + out@ + self.pending@
                        &&& run_bits(t, 0, 0, all_bits.take(8 * (self.pos - self.start))).end
                            == DecodeEnd::More(self.code as int, self.level as int)
                    },
                decreases 8 * (src.len() - self.pos) + if self.done {
                    0int
                } else {
                    1int
                },
            {
                if self.pos >= self.input.len() {
                    self.done = true;
                    proof {
                        assert(all_bits.take(8 * (self.pos - self.start)) =~= all_bits);
                        assert(decoded_output(src) == run_bits(t, 0, 0, all_bits).emitted);
                        assert(decode_end(src) == run_bits(t, 0, 0, all_bits).end);
                    }
                } else {
                    let b = self.input[self.pos];
                    self.pos = self.pos + 1;
                    let ghost byte_index = self.pos - 1 - self.start;
                    proof {
                        assert(src.skip(g_start as int).len() == src.len() - g_start);
                        assert(src.skip(g_start as int)[byte_index] == b);
                    }
                    let mut k: usize = 0;
                    while k < 8 && !self.done
                        invariant
                            k <= 8,
                            self.input@ == src,
                            src == old(self).input@,
                            self.start == g_start,
                            g_start == old(self).start,
                            base == old(self).delivered@,
                            self.symbolsin@ == old(self).symbolsin@,
                            self.tree@ == old(self).tree@,
                            self.inodesin@ == old(self).inodesin@,
                            self.delivered@ == base,
                            self.table() == t,
                            all_bits == bits_of(src.skip(g_start as int)),
                            parse_table(src) matches TableParse::Parsed(pt, used) && pt == t
                                && used == g_start as int,
                            self.corrupt is None,
                            self.pending_next == 0,
                            g_start < self.pos <= src.len(),
                            src.len() <= usize::MAX,
                            byte_index == self.pos - 1 - self.start,
                            src.skip(g_start as int)[byte_index] == b,
                            self.symbolsin@.len() == self.tree@.len(),
                            self.inodesin@.len() == self.symbolsin@.len(),
                            self.symbolsin@.len() >= 1,
                            forall|i: int|
                                0 <= i < self.inodesin@.len() ==> #[trigger] self.inodesin@[i]
                                    <= 257,
                            forall|i: int|
                                0 <= i < self.symbolsin@.len() ==> #[trigger] self.symbolsin@[i]
                                    <= 257,
                            out@.len() <= want,
                            self.pending@.len() > 0 ==> out@.len() == want,
                            if self.done {
                                &&& base + out@ + self.pending@ == decoded_output(src)
                                &&& !(decode_end(src) is CorruptIndex)
                                &&& !(decode_end(src) is CorruptLevel)
                            } else {
                                &&& self.level < self.symbolsin@.len()
                                &&& self.code <= 256
                                &&& run_bits(
                                    t,
                                    0,
                                    0,
                                    all_bits.take(8 * byte_index + k),
                                ).emitted == base + out@ + self.pending@
                                &&& run_bits(t, 0, 0, all_bits.take(8 * byte_index + k)).end
                                    == DecodeEnd::More(self.code as int, self.level as int)
                            },
                        decreases 8 - k,
                    {
                        let ghost consumed = all_bits.take(8 * byte_index + k);
                        let ghost jbit = all_bits[8 * byte_index + k as int];
                        proof {
                            assert(0 <= byte_index);
                            assert(8 * byte_index + k < all_bits.len()) by {
                                assert(all_bits.len() == (src.len() - g_start) * 8);
                                assert(byte_index + 1 <= src.len() - g_start);
                                assert(8 * byte_index + k < 8 * (byte_index + 1));
                                assert(8 * (byte_index + 1) <= 8 * (src.len() - g_start))
                                    by (nonlinear_arith)
                                    requires
                                        byte_index + 1 <= src.len() - g_start,
                                ;
                            }
                            assert((8 * byte_index + k) / 8 == byte_index && (8 * byte_index
                                + k) % 8 == k as int) by (nonlinear_arith)
                                requires
                                    0 <= byte_index,
                                    0 <= k < 8,
                            ;
                            assert(jbit == bit_at(b, k as int));
                            assert(all_bits.take(8 * byte_index + k + 1) =~= consumed
                                + seq![jbit]);
                            lemma_run_append(t, 0, 0, consumed, seq![jbit]);
                            assert(seq![jbit].skip(1) =~= Seq::<bool>::empty());
                            assert(run_bits(t, 0, 0, seq![jbit].skip(1)).end == DecodeEnd::More(
                                0,
                                0,
                            ));
                            assert(run_bits(t, 0, 0, seq![jbit].skip(1)).emitted
                                =~= Seq::<u8>::empty());
                        }
                        let sh: u8 = (7 - k) as u8;
                        let bv: u8 = (b >> sh) & 1;
                        proof {
                            assert(sh == (7 - k as int) as u8);
                            assert(bv == 1 <==> bit_at(b, k as int));
                        }
                        let c2: u16 = 2 * self.code + if bv == 1 {
                            1
                        } else {
                            0
                        };
                        let lvl = self.level;
                        let ino = self.inodesin[lvl];
                        proof {
                            assert(t.inodes[lvl as int] == ino as int);
                            assert(t.limits[lvl as int] == self.symbolsin@[lvl as int] as int);
                            assert(t.symbols[lvl as int] == self.tree@[lvl as int]@);
                        }
                        if c2 >= ino {
                            let idx = (c2 - ino) as usize;
                            let lim = self.symbolsin[lvl];
                            if idx > lim as usize {
                                self.corrupt = Some(CorruptKind::Index);
                                proof {
                                    lemma_run_append(
                                        t,
                                        0,
                                        0,
                                        all_bits.take(8 * byte_index + k + 1),
                                        all_bits.skip(8 * byte_index + k + 1),
                                    );
                                    assert(all_bits.take(8 * byte_index + k + 1) + all_bits.skip(
                                        8 * byte_index + k + 1,
                                    ) =~= all_bits);
                                    assert(decode_end(src) is CorruptIndex);
                                }
                                return Err(Error::InvalidLevelIndex);
                            }
                            let row_len = self.tree[lvl].len();
                            if idx >= row_len {
                                self.done = true;
                                proof {
                                    assert(run_bits(
                                        t,
                                        0,
                                        0,
                                        all_bits.take(8 * byte_index + k + 1),
                                    ).end == DecodeEnd::Sentinel);
                                    lemma_run_append(
                                        t,
                                        0,
                                        0,
                                        all_bits.take(8 * byte_index + k + 1),
                                        all_bits.skip(8 * byte_index + k + 1),
                                    );
                                    assert(all_bits.take(8 * byte_index + k + 1) + all_bits.skip(
                                        8 * byte_index + k + 1,
                                    ) =~= all_bits);
                                    assert(decoded_output(src) == base + out@ + self.pending@);
                                }
                            } else {
                                let sym = self.tree[lvl][idx];
                                if out.len() < want {
                                    out.push(sym);
                                } else {
                                    self.pending.push(sym);
                                }
                                self.code = 0;
                                self.level = 0;
                                proof {
                                    let ghost second = run_bits(
                                        t,
                                        run_bits(t, 0, 0, consumed).end->More_0,
                                        run_bits(t, 0, 0, consumed).end->More_1,
                                        seq![jbit],
                                    );
                                    assert(second.emitted =~= seq![
                                        t.symbols[lvl as int][idx as int],
                                    ]);
                                    assert(second.end == DecodeEnd::More(0, 0));
                                    assert(run_bits(
                                        t,
                                        0,
                                        0,
                                        all_bits.take(8 * byte_index + k + 1),
                                    ).end == DecodeEnd::More(0, 0));
                                    assert(run_bits(
                                        t,
                                        0,
                                        0,
                                        all_bits.take(8 * byte_index + k + 1),
                                    ).emitted =~= base + out@ + self.pending@);
                                }
                            }
                        } else {
                            if lvl + 1 >= self.symbolsin.len() {
                                self.corrupt = Some(CorruptKind::Level);
                                proof {
                                    lemma_run_append(
                                        t,
                                        0,
                                        0,
                                        all_bits.take(8 * byte_index + k + 1),
                                        all_bits.skip(8 * byte_index + k + 1),
                                    );
                                    assert(all_bits.take(8 * byte_index + k + 1) + all_bits.skip(
                                        8 * byte_index + k + 1,
                                    ) =~= all_bits);
                                    assert(decode_end(src) is CorruptLevel);
                                }
                                return Err(Error::InvalidTreelevel);
                            }
                            self.code = c2;
                            self.level = lvl + 1;
                            proof {
                                assert(run_bits(
                                    t,
                                    c2 as int,
                                    lvl + 1,
                                    seq![jbit].skip(1),
                                ).end == DecodeEnd::More(c2 as int, lvl + 1));
                                assert(run_bits(
                                    t,
                                    c2 as int,
                                    lvl + 1,
                                    seq![jbit].skip(1),
                                ).emitted =~= Seq::<u8>::empty());
                                assert(run_bits(
                                    t,
                                    0,
                                    0,
                                    all_bits.take(8 * byte_index + k + 1),
                                ).end == DecodeEnd::More(c2 as int, lvl + 1));
                                assert(run_bits(
                                    t,
                                    0,
                                    0,
                                    all_bits.take(8 * byte_index + k + 1),
                                ).emitted =~= base + out@ + self.pending@);
                            }
                        }
                        k = k + 1;
                    }
                    proof {
                        if !self.done {
                            assert(all_bits.take(8 * byte_index + 8) =~= all_bits.take(
                                8 * (self.pos - self.start),
                            ));
                        }
                    }
                }
            }
        }
        self.delivered = Ghost(base + out@);
        proof {
            if self.pending_next == 0 {
                assert(self.pending_view() =~= self.pending@);
            }
            if out@.len() < want {
                assert(self.pending@ =~= Seq::<u8>::empty());
                assert(base + out@ + self.pending@ =~= base + out@);
            }
            assert(self.produced() =~= base + out@ + self.pending_view());
        }
        Ok(out)
    }

    /// What a decoder has handed out is always a prefix of the one decoded
    /// stream of its payload.  Together with the contract of [`Self::read`]
    /// this is why pulls of different sizes cannot change the result: every
    /// pull appends the next piece of the same stream.
    pub proof fn lemma_delivered_prefix(self)
        requires
            self.wf(),
            !self.is_corrupt(),
        ensures
            self.delivered().len() <= self.decoded().len(),
            self.delivered() == self.decoded().take(self.delivered().len() as int),
    {
        let all_bits = bits_of(self.input@.skip(self.start as int));
        let consumed = self.consumed_bits();
        if self.done {
            assert(self.delivered@ + self.pending_view() == decoded_output(self.input@));
            assert(self.delivered() == self.decoded().take(self.delivered().len() as int))
                by {
                assert(self.decoded() =~= self.delivered@ + self.pending_view());
                assert((self.delivered@ + self.pending_view()).take(
                    self.delivered@.len() as int,
                ) =~= self.delivered@);
            }
        } else {
            lemma_run_append(
                self.table(),
                0,
                0,
                consumed,
                all_bits.skip(8 * (self.pos - self.start)),
            );
            assert(consumed + all_bits.skip(8 * (self.pos - self.start)) =~= all_bits);
            let rest = run_bits(
                self.table(),
                self.code as int,
                self.level as int,
                all_bits.skip(8 * (self.pos - self.start)),
            );
            assert(self.decoded() == self.produced() + rest.emitted);
            assert(self.delivered() == self.decoded().take(self.delivered().len() as int))
                by {
                assert(self.decoded() =~= (self.delivered@ + self.pending_view())
                    + rest.emitted);
                assert(((self.delivered@ + self.pending_view()) + rest.emitted).take(
                    self.delivered@.len() as int,
                ) =~= self.delivered@);
            }
        }
    }

    /// Pull everything that is left: the rest of the decoded payload.
    pub fn read_to_end(&mut self) -> (r: Result<Vec<u8>, Error>)
        requires
            old(self).wf(),
        ensures
            final(self).wf(),
            final(self).source() == old(self).source(),
            match r {
                Ok(out) => {
                    &&& final(self).delivered() == old(self).delivered() + out@
                    &&& final(self).delivered() == final(self).decoded()
                    &&& final(self).is_done()
                    &&& !final(self).is_corrupt()
                },
                Err(e) => {
                    &&& final(self).is_corrupt()
                    &&& match e {
                        Error::InvalidLevelIndex => decode_end(old(self).source())
                            is CorruptIndex,
                        Error::InvalidTreelevel => decode_end(old(self).source())
                            is CorruptLevel,
                        _ => false,
                    }
                },
            },
    {
        let mut all: Vec<u8>;
        match self.read(4096) {
            Ok(chunk) => {
                all = chunk;
            },
            Err(e) => {
                return Err(e);
            },
        }
        if all.len() < 4096 {
            return Ok(all);
        }
        proof {
            self.lemma_delivered_prefix();
        }
        loop
            invariant_except_break
                self.wf(),
                !self.is_corrupt(),
                self.source() == old(self).source(),
                self.delivered() == old(self).delivered() + all@,
                self.delivered().len() <= self.decoded().len(),
            ensures
                self.wf(),
                self.source() == old(self).source(),
                !self.is_corrupt(),
                self.is_done(),
                self.delivered() == old(self).delivered() + all@,
                self.delivered() == self.decoded(),
            decreases self.decoded().len() - self.delivered().len(),
        {
            match self.read(4096) {
                Ok(chunk) => {
                    let n = chunk.len();
                    let mut chunk = chunk;
                    all.append(&mut chunk);
                    proof {
                        assert(old(self).delivered() + all@ =~= self.delivered());
                    }
                    if n < 4096 {
                        break;
                    }
                    proof {
                        self.lemma_delivered_prefix();
                    }
                },
                Err(e) => {
                    return Err(e);
                },
            }
        }
        Ok(all)
    }
}

} // verus!
