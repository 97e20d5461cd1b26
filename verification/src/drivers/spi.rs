//! The arithmetic of an SPI transfer: word size, word counts, clock divider
//! and how bytes are packed into FIFO words.
use vstd::prelude::*;

verus! {

#[derive(Debug, Clone, Copy, PartialEq, Eq, Structural)]
pub enum Error {
    AdtNodeNotFound,
    AdtNodeNotCompatible,
    RxUnderrun,
    TxOverflow,
}

/// Largest clock divider.
pub const CLOCK_DIV_MAX: u32 = 0x7FF;

/// Frequency of the controller's input clock.
pub const PARENT_CLK_HZ: u128 = 24_000_000;

/// Depth of the FIFOs, in words.
pub const FIFO_DEPTH: u32 = 16;

/// Bytes moved per FIFO word.
#[derive(Debug, Clone, Copy, PartialEq, Eq, Structural)]
pub enum TransactionSize {
    Ts1b,
    Ts2b,
    Ts4b,
}

pub open spec fn word_bytes(ts: TransactionSize) -> int {
    match ts {
        TransactionSize::Ts1b => 1,
        TransactionSize::Ts2b => 2,
        TransactionSize::Ts4b => 4,
    }
}

/// The alignment of `address`: the largest of 8, 4, 2 and 1 that divides it.
pub open spec fn alignment(address: usize) -> usize {
    if address % 8 == 0 {
        8
    } else if address % 4 == 0 {
        4
    } else if address % 2 == 0 {
        2
    } else {
        1
    }
}

pub fn pointer_alignment(address: usize) -> (a: usize)
    ensures
        a == alignment(address),
{
    assert(address & 7 == address % 8 && address & 3 == address % 4 && address & 1 == address % 2)
        by (bit_vector);
    if address & 0x07 == 0 {
        8
    } else if address & 0x03 == 0 {
        4
    } else if address & 0x01 == 0 {
        2
    } else {
        1
    }
}

/// The widest word size that the alignments and lengths of both buffers
/// allow.
pub open spec fn best_transaction_size(
    tx_address: usize,
    rx_address: usize,
    tx_len: usize,
    rx_len: usize,
) -> TransactionSize {
    let tx_alignment = alignment(tx_address);
    let rx_alignment = alignment(rx_address);
    if tx_alignment >= 4 && rx_alignment >= 4 && tx_len % 4 == 0 && rx_len % 4 == 0 {
        TransactionSize::Ts4b
    } else if tx_alignment >= 2 && rx_alignment >= 2 && tx_len % 2 == 0 && rx_len % 2 == 0 {
        TransactionSize::Ts2b
    } else {
        TransactionSize::Ts1b
    }
}

/// Picks the word size of a transfer from the addresses and lengths of the
/// transmit and receive buffers.
pub fn deduct_transaction_size(tx_address: usize, rx_address: usize, tx_len: usize, rx_len: usize) -> (ts:
    TransactionSize)
    ensures
        ts == best_transaction_size(tx_address, rx_address, tx_len, rx_len),
{
    let tx_alignment = pointer_alignment(tx_address);
    let rx_alignment = pointer_alignment(rx_address);
    if tx_alignment >= 4 && rx_alignment >= 4 && (tx_len % 4 == 0) && (rx_len % 4 == 0) {
        TransactionSize::Ts4b
    } else if tx_alignment >= 2 && rx_alignment >= 2 && (tx_len % 2 == 0) && (rx_len % 2 == 0) {
        TransactionSize::Ts2b
    } else {
        TransactionSize::Ts1b
    }
}

/// The number of words to send and to receive.
pub fn transfer_counts(tx_len: usize, rx_len: usize, ts: TransactionSize) -> (counts: (usize, usize))
    ensures
        counts.0 == tx_len as int / word_bytes(ts),
        counts.1 == rx_len as int / word_bytes(ts),
{
    match ts {
        TransactionSize::Ts1b => (tx_len, rx_len),
        TransactionSize::Ts2b => (tx_len / 2, rx_len / 2),
        TransactionSize::Ts4b => (tx_len / 4, rx_len / 4),
    }
}

/// Input clock cycles per bit, minus one, for a bit period of `nanos`.
pub open spec fn raw_divider(nanos: u128) -> int {
    ((PARENT_CLK_HZ * nanos / 1_000_000_000) as u32) as int - 1
}

/// The clock divider for a bit period of `nanos`, at most
/// [`CLOCK_DIV_MAX`].
pub fn clock_divider(nanos: u128) -> (div: u32)
    requires
        PARENT_CLK_HZ * nanos <= u128::MAX,
        raw_divider(nanos) >= 0,
    ensures
        div == if raw_divider(nanos) < CLOCK_DIV_MAX { raw_divider(nanos) } else { CLOCK_DIV_MAX as int },
{
    let clk_div = (PARENT_CLK_HZ * nanos / 1_000_000_000) as u32 - 1;
    if clk_div < CLOCK_DIV_MAX {
        clk_div
    } else {
        CLOCK_DIV_MAX
    }
}

/// The FIFO word for the next bytes of the transmit buffer, most
/// significant byte first.
pub open spec fn tx_word_spec(bytes: Seq<u8>, ts: TransactionSize) -> u32 {
    match ts {
        TransactionSize::Ts1b => bytes[0] as u32,
        TransactionSize::Ts2b => (bytes[0] * 0x100 + bytes[1]) as u32,
        TransactionSize::Ts4b => (bytes[0] * 0x100_0000 + bytes[1] * 0x1_0000 + bytes[2] * 0x100
            + bytes[3]) as u32,
    }
}

pub fn tx_word(bytes: &[u8], ts: TransactionSize) -> (word: u32)
    requires
        bytes@.len() >= word_bytes(ts),
    ensures
        word == tx_word_spec(bytes@, ts),
{
    match ts {
        TransactionSize::Ts1b => bytes[0] as u32,
        TransactionSize::Ts2b => (bytes[0] as u32) * 0x100 + bytes[1] as u32,
        TransactionSize::Ts4b => (bytes[0] as u32) * 0x100_0000 + (bytes[1] as u32) * 0x1_0000
            + (bytes[2] as u32) * 0x100 + bytes[3] as u32,
    }
}

/// The bytes of a received FIFO word, most significant byte first.
pub open spec fn rx_bytes_spec(word: u32, ts: TransactionSize) -> Seq<u8> {
    match ts {
        TransactionSize::Ts1b => seq![(word % 0x100) as u8],
        TransactionSize::Ts2b => seq![((word % 0x1_0000) / 0x100) as u8, (word % 0x100) as u8],
        TransactionSize::Ts4b => seq![
            (word / 0x100_0000) as u8,
            ((word / 0x1_0000) % 0x100) as u8,
            ((word / 0x100) % 0x100) as u8,
            (word % 0x100) as u8,
        ],
    }
}

pub fn rx_bytes(word: u32, ts: TransactionSize) -> (bytes: Vec<u8>)
    ensures
        bytes@ == rx_bytes_spec(word, ts),
{
    let mut bytes: Vec<u8> = Vec::new();
    match ts {
        TransactionSize::Ts1b => {
            bytes.push((word % 0x100) as u8);
        },
        TransactionSize::Ts2b => {
            bytes.push(((word % 0x1_0000) / 0x100) as u8);
            bytes.push((word % 0x100) as u8);
        },
        TransactionSize::Ts4b => {
            bytes.push((word / 0x100_0000) as u8);
            bytes.push(((word / 0x1_0000) % 0x100) as u8);
            bytes.push(((word / 0x100) % 0x100) as u8);
            bytes.push((word % 0x100) as u8);
        },
    }
    assert(bytes@ =~= rx_bytes_spec(word, ts));
    bytes
}

proof fn lemma_split2(b0: u8, b1: u8)
    ensures
        ((b0 * 0x100 + b1) % 0x1_0000) / 0x100 == b0,
        (b0 * 0x100 + b1) % 0x100 == b1,
{
    assert(((b0 * 0x100 + b1) % 0x1_0000) / 0x100 == b0 && (b0 * 0x100 + b1) % 0x100 == b1)
        by (nonlinear_arith)
        requires
            0 <= b0 < 256,
            0 <= b1 < 256,
    ;
}

proof fn lemma_split4(b0: u8, b1: u8, b2: u8, b3: u8)
    ensures
        ({
            let w = b0 * 0x100_0000 + b1 * 0x1_0000 + b2 * 0x100 + b3;
            &&& w / 0x100_0000 == b0
            &&& (w / 0x1_0000) % 0x100 == b1
            &&& (w / 0x100) % 0x100 == b2
            &&& w % 0x100 == b3
        }),
{
    let w = b0 * 0x100_0000 + b1 * 0x1_0000 + b2 * 0x100 + b3;
    let lo = b2 * 0x100 + b3;
    let mid = b1 * 0x1_0000 + lo;
    assert(w / 0x100_0000 == b0 && w % 0x100_0000 == mid) by (nonlinear_arith)
        requires
            w == b0 * 0x100_0000 + mid,
            0 <= mid < 0x100_0000,
    ;
    assert(w / 0x1_0000 == b0 * 0x100 + b1) by (nonlinear_arith)
        requires
            w == (b0 * 0x100 + b1) * 0x1_0000 + lo,
            0 <= lo < 0x1_0000,
    ;
    assert(w / 0x100 == (b0 * 0x100 + b1) * 0x100 + b2) by (nonlinear_arith)
        requires
            w == ((b0 * 0x100 + b1) * 0x100 + b2) * 0x100 + b3,
            0 <= b3 < 0x100,
    ;
    assert((b0 * 0x100 + b1) % 0x100 == b1) by (nonlinear_arith)
        requires
            0 <= b1 < 0x100,
            0 <= b0,
    ;
    assert(((b0 * 0x100 + b1) * 0x100 + b2) % 0x100 == b2) by (nonlinear_arith)
        requires
            0 <= b2 < 0x100,
            0 <= b0,
            0 <= b1,
    ;
    assert(w % 0x100 == b3) by (nonlinear_arith)
        requires
            w == ((b0 * 0x100 + b1) * 0x100 + b2) * 0x100 + b3,
            0 <= b3 < 0x100,
            0 <= b0,
            0 <= b1,
            0 <= b2,
    ;
}

/// Receiving what was sent gives the same bytes back.
pub proof fn law_word_round_trip(bytes: Seq<u8>, ts: TransactionSize)
    requires
        bytes.len() == word_bytes(ts),
    ensures
        rx_bytes_spec(tx_word_spec(bytes, ts), ts) == bytes,
{
    match ts {
        TransactionSize::Ts1b => {},
        TransactionSize::Ts2b => {
            lemma_split2(bytes[0], bytes[1]);
        },
        TransactionSize::Ts4b => {
            lemma_split4(bytes[0], bytes[1], bytes[2], bytes[3]);
        },
    }
    assert(rx_bytes_spec(tx_word_spec(bytes, ts), ts) =~= bytes);
}


/// All FIFO words of a transmit buffer, in order.
pub open spec fn tx_words(tx: Seq<u8>, ts: TransactionSize) -> Seq<u32> {
    Seq::new(
        (tx.len() as int / word_bytes(ts)) as nat,
        |i: int| tx_word_spec(tx.subrange(i * word_bytes(ts), i * word_bytes(ts) + word_bytes(ts)), ts),
    )
}

/// The bytes of a run of received FIFO words, in order.
pub open spec fn rx_concat(words: Seq<u32>, ts: TransactionSize) -> Seq<u8>
    decreases words.len(),
{
    if words.len() == 0 {
        Seq::empty()
    } else {
        rx_concat(words.drop_last(), ts) + rx_bytes_spec(words.last(), ts)
    }
}

/// Whether to start a transfer at all: one with nothing to send and nothing
/// to receive does nothing.
pub open spec fn is_noop(tx_len: usize, rx_len: usize) -> bool {
    tx_len == 0 && rx_len == 0
}

/// The state of one transfer between FIFO polls: what is left to send and
/// what has been received so far.
pub struct Transfer {
    ts: TransactionSize,
    tx: Vec<u8>,
    tx_pos: usize,
    rx: Vec<u8>,
    rx_len: usize,
}

impl Transfer {
    pub closed spec fn size(&self) -> TransactionSize {
        self.ts
    }

    /// The whole transmit buffer.
    pub closed spec fn tx(&self) -> Seq<u8> {
        self.tx@
    }

    /// How many bytes of the transmit buffer went into the FIFO.
    pub closed spec fn sent(&self) -> int {
        self.tx_pos as int
    }

    /// The bytes received so far.
    pub closed spec fn received(&self) -> Seq<u8> {
        self.rx@
    }

    /// The size of the receive buffer.
    pub closed spec fn rx_len(&self) -> int {
        self.rx_len as int
    }

    pub open spec fn wf(&self) -> bool {
        let wb = word_bytes(self.size());
        &&& self.sent() <= self.tx().len()
        &&& self.sent() % wb == 0
        &&& self.tx().len() as int % wb == 0
        &&& self.received().len() <= self.rx_len()
        &&& self.received().len() as int % wb == 0
        &&& self.rx_len() % wb == 0
    }

    /// Words sent so far.
    pub open spec fn words_sent(&self) -> int {
        self.sent() / word_bytes(self.size())
    }

    /// The words that the FIFO count registers are loaded with: those to send
    /// and those to receive.
    pub open spec fn counts(&self) -> (int, int) {
        (self.tx().len() as int / word_bytes(self.size()), self.rx_len() / word_bytes(self.size()))
    }

    /// Sets up a transfer of `tx` that receives `rx_len` bytes, the transmit
    /// buffer lying at `tx_address` and the receive buffer at `rx_address`.
    /// `None` when there is nothing to send and nothing to receive: no
    /// transfer takes place.
    pub fn new(tx: Vec<u8>, tx_address: usize, rx_address: usize, rx_len: usize) -> (t: Option<Self>)
        ensures
            is_noop(tx@.len() as usize, rx_len) <==> t is None,
            t matches Some(t) ==> {
                &&& t.wf()
                &&& t.size() == best_transaction_size(tx_address, rx_address, tx@.len() as usize, rx_len)
                &&& t.tx() == tx@
                &&& t.sent() == 0
                &&& t.received() == Seq::<u8>::empty()
                &&& t.rx_len() == rx_len
            },
    {
        if tx.len() == 0 && rx_len == 0 {
            return None;
        }
        let ts = deduct_transaction_size(tx_address, rx_address, tx.len(), rx_len);
        let rx: Vec<u8> = Vec::new();
        Some(Transfer { ts, tx, tx_pos: 0, rx, rx_len })
    }

    pub fn transaction_size(&self) -> (ts: TransactionSize)
        ensures
            ts == self.size(),
    {
        self.ts
    }

    /// The number of words to send and to receive, as written to the count
    /// registers.
    pub fn word_counts(&self) -> (counts: (usize, usize))
        requires
            self.wf(),
        ensures
            counts.0 == self.counts().0,
            counts.1 == self.counts().1,
    {
        transfer_counts(self.tx.len(), self.rx_len, self.ts)
    }

    /// Whether a byte is left to send or to receive: the transfer loop runs
    /// while this holds.
    pub fn has_pending(&self) -> (pending: bool)
        ensures
            pending == (self.sent() < self.tx().len() || self.received().len() < self.rx_len()),
    {
        self.tx_pos < self.tx.len() || self.rx.len() < self.rx_len
    }

    /// The FIFO word that starts at byte `pos` of the transmit buffer.
    fn word_at(&self, pos: usize) -> (word: u32)
        requires
            pos + word_bytes(self.size()) <= self.tx().len(),
        ensures
            word == tx_word_spec(self.tx().subrange(pos as int, pos + word_bytes(self.size())), self.size()),
    {
        let len = self.tx.len();
        assert(pos + word_bytes(self.ts) <= len);
        match self.ts {
            TransactionSize::Ts1b => self.tx[pos] as u32,
            TransactionSize::Ts2b => (self.tx[pos] as u32) * 0x100 + self.tx[pos + 1] as u32,
            TransactionSize::Ts4b => (self.tx[pos] as u32) * 0x100_0000 + (self.tx[pos + 1] as u32)
                * 0x1_0000 + (self.tx[pos + 2] as u32) * 0x100 + self.tx[pos + 3] as u32,
        }
    }

    /// The words to write into the transmit FIFO when it holds `level_tx`
    /// words: the next ones of the buffer, as many as fit.
    pub fn push_tx(&mut self, level_tx: u32) -> (words: Vec<u32>)
        requires
            old(self).wf(),
            level_tx <= FIFO_DEPTH,
        ensures
            final(self).wf(),
            final(self).size() == old(self).size(),
            final(self).tx() == old(self).tx(),
            final(self).received() == old(self).received(),
            final(self).rx_len() == old(self).rx_len(),
            ({
                let left = old(self).counts().0 - old(self).words_sent();
                let room = FIFO_DEPTH - level_tx;
                let n = if room < left { room } else { left };
                &&& words@.len() == n
                &&& final(self).words_sent() == old(self).words_sent() + n
                &&& words@ == tx_words(old(self).tx(), old(self).size()).subrange(
                    old(self).words_sent(),
                    old(self).words_sent() + n,
                )
            }),
    {
        let ghost start = self.words_sent();
        let ghost all = tx_words(self.tx@, self.ts);
        let ghost wb = word_bytes(self.ts);
        let word_count = FIFO_DEPTH - level_tx;
        let step: usize = match self.ts {
            TransactionSize::Ts1b => 1,
            TransactionSize::Ts2b => 2,
            TransactionSize::Ts4b => 4,
        };
        let mut words: Vec<u32> = Vec::new();
        let mut i: u32 = 0;
        proof {
            assert(words@ =~= all.subrange(start, start));
        }
        while i < word_count && self.tx_pos < self.tx.len()
            invariant
                self.wf(),
                step == wb,
                wb == word_bytes(self.size()),
                self.size() == old(self).size(),
                self.tx() == old(self).tx(),
                self.received() == old(self).received(),
                self.rx_len() == old(self).rx_len(),
                all == tx_words(self.tx(), self.size()),
                start == old(self).words_sent(),
                i <= word_count,
                word_count == FIFO_DEPTH - level_tx,
                self.words_sent() == start + i,
                words@ == all.subrange(start, start + i),
            decreases word_count - i,
        {
            let pos = self.tx_pos;
            proof {
                assert(pos as int % wb == 0);
                assert(self.tx().len() as int % wb == 0);
                assert(pos + wb <= self.tx().len()) by (nonlinear_arith)
                    requires
                        pos as int % wb == 0,
                        self.tx().len() as int % wb == 0,
                        pos < self.tx().len(),
                        wb == 1 || wb == 2 || wb == 4,
                ;
                assert(pos as int / wb * wb == pos) by (nonlinear_arith)
                    requires
                        pos as int % wb == 0,
                        wb > 0,
                ;
            }
            let word = self.word_at(pos);
            proof {
                let k = start + i;
                assert(k == pos as int / wb);
                assert(k < self.tx().len() as int / wb) by (nonlinear_arith)
                    requires
                        pos + wb <= self.tx().len(),
                        k == pos as int / wb,
                        pos as int / wb * wb == pos,
                        wb > 0,
                ;
                assert(k * wb == pos);
                assert(all[k] == word);
            }
            words.push(word);
            self.tx_pos = pos + step;
            i = i + 1;
            proof {
                assert((pos as int + wb) % wb == 0) by (nonlinear_arith)
                    requires
                        pos as int % wb == 0,
                        wb > 0,
                ;
                assert((pos as int + wb) / wb == pos as int / wb + 1) by (nonlinear_arith)
                    requires
                        pos as int % wb == 0,
                        wb > 0,
                ;
                assert(words@ =~= all.subrange(start, start + i));
            }
        }
        proof {
            let left = old(self).counts().0 - start;
            let room = FIFO_DEPTH - level_tx;
            if self.tx_pos >= self.tx.len() {
                assert(self.sent() == self.tx().len());
                assert(start + i == self.tx().len() as int / wb);
            } else {
                assert(i == word_count);
                assert(self.sent() < self.tx().len());
                assert(self.sent() / wb < self.tx().len() as int / wb) by (nonlinear_arith)
                    requires
                        self.sent() < self.tx().len(),
                        self.sent() % wb == 0,
                        self.tx().len() as int % wb == 0,
                        wb > 0,
                ;
            }
        }
        words
    }

    /// Takes one word read from the receive FIFO. The controller delivers no
    /// more words than the receive count it was given.
    pub fn pop_rx(&mut self, word: u32)
        requires
            old(self).wf(),
            old(self).received().len() < old(self).rx_len(),
        ensures
            final(self).wf(),
            final(self).size() == old(self).size(),
            final(self).tx() == old(self).tx(),
            final(self).sent() == old(self).sent(),
            final(self).rx_len() == old(self).rx_len(),
            final(self).received() == old(self).received() + rx_bytes_spec(word, old(self).size()),
    {
        let ghost before = self.rx@;
        let bytes = rx_bytes(word, self.ts);
        let mut j: usize = 0;
        proof {
            let wb = word_bytes(self.ts);
            assert(before.len() + wb <= self.rx_len) by (nonlinear_arith)
                requires
                    before.len() < self.rx_len,
                    before.len() as int % wb == 0,
                    self.rx_len as int % wb == 0,
                    wb == 1 || wb == 2 || wb == 4,
            ;
        }
        while j < bytes.len()
            invariant
                old(self).wf(),
                self.ts == old(self).ts,
                self.tx == old(self).tx,
                self.tx_pos == old(self).tx_pos,
                self.rx_len == old(self).rx_len,
                before == old(self).rx@,
                bytes@ == rx_bytes_spec(word, self.ts),
                bytes@.len() == word_bytes(self.ts),
                before.len() + word_bytes(self.ts) <= self.rx_len,
                j <= bytes@.len(),
                self.rx@ == before + bytes@.subrange(0, j as int),
            decreases bytes@.len() - j,
        {
            self.rx.push(bytes[j]);
            j = j + 1;
            proof {
                assert(self.rx@ =~= before + bytes@.subrange(0, j as int));
            }
        }
        proof {
            let wb = word_bytes(self.ts);
            assert(bytes@.subrange(0, j as int) =~= bytes@);
            assert((before.len() as int + wb) % wb == 0) by (nonlinear_arith)
                requires
                    before.len() as int % wb == 0,
                    wb > 0,
            ;
        }
    }

    /// The received bytes, once the transfer is over.
    pub fn into_received(self) -> (rx: Vec<u8>)
        ensures
            rx@ == self.received(),
    {
        self.rx
    }
}

/// The error flags of the FIFO, read after each round: an underrun of the
/// receive FIFO is reported before an overflow of the transmit FIFO.
pub fn poll_for_errors(rx_underrun: bool, tx_overflow: bool) -> (result: Result<(), Error>)
    ensures
        rx_underrun ==> result == Err::<(), Error>(Error::RxUnderrun),
        !rx_underrun && tx_overflow ==> result == Err::<(), Error>(Error::TxOverflow),
        !rx_underrun && !tx_overflow ==> result is Ok,
{
    if rx_underrun {
        return Err(Error::RxUnderrun);
    }
    if tx_overflow {
        return Err(Error::TxOverflow);
    }
    Ok(())
}

/// Whether the end of a transfer is still to be waited for: each direction
/// that carries words must report completion.
pub fn completion_pending(tx_count: usize, rx_count: usize, tx_complete: bool, rx_complete: bool) -> (pending: bool)
    ensures
        pending == ((tx_count != 0 && !tx_complete) || (rx_count != 0 && !rx_complete)),
{
    if tx_count != 0 && rx_count != 0 {
        !tx_complete || !rx_complete
    } else if tx_count != 0 {
        !tx_complete
    } else if rx_count != 0 {
        !rx_complete
    } else {
        false
    }
}

proof fn lemma_tx_words_prefix(tx: Seq<u8>, ts: TransactionSize)
    requires
        tx.len() as int % word_bytes(ts) == 0,
        tx.len() >= word_bytes(ts),
    ensures
        ({
            let wb = word_bytes(ts);
            let head = tx.subrange(0, tx.len() - wb);
            &&& head.len() as int % wb == 0
            &&& tx_words(tx, ts).drop_last() == tx_words(head, ts)
            &&& tx_words(tx, ts).last() == tx_word_spec(tx.subrange(tx.len() - wb, tx.len() as int), ts)
        }),
{
    let wb = word_bytes(ts);
    let n = tx.len() as int / wb;
    let head = tx.subrange(0, tx.len() - wb);
    assert(n * wb == tx.len()) by (nonlinear_arith)
        requires
            tx.len() as int % wb == 0,
            wb > 0,
            n == tx.len() as int / wb,
    ;
    assert(n >= 1) by (nonlinear_arith)
        requires
            n * wb == tx.len(),
            tx.len() >= wb,
            wb > 0,
    ;
    assert(head.len() as int / wb == n - 1 && head.len() as int % wb == 0) by (nonlinear_arith)
        requires
            head.len() == tx.len() - wb,
            n * wb == tx.len(),
            wb > 0,
    ;
    assert forall|i: int| 0 <= i < n - 1 implies #[trigger] tx.subrange(i * wb, i * wb + wb)
        =~= head.subrange(i * wb, i * wb + wb) by {
        assert(i * wb + wb <= (n - 1) * wb) by (nonlinear_arith)
            requires
                i < n - 1,
                wb > 0,
        ;
        assert((n - 1) * wb == n * wb - wb) by (nonlinear_arith);
    }
    assert(tx_words(tx, ts).drop_last() =~= tx_words(head, ts));
    assert((n - 1) * wb == tx.len() - wb) by (nonlinear_arith)
        requires
            n * wb == tx.len(),
    ;
}

/// A transfer looped back (every word sent is received) hands back the
/// bytes that were sent, for a buffer of whole words.
pub proof fn law_loopback(tx: Seq<u8>, ts: TransactionSize)
    requires
        tx.len() as int % word_bytes(ts) == 0,
    ensures
        rx_concat(tx_words(tx, ts), ts) == tx,
    decreases tx.len(),
{
    let wb = word_bytes(ts);
    if tx.len() == 0 {
        assert(tx_words(tx, ts) =~= Seq::<u32>::empty());
        assert(tx =~= Seq::<u8>::empty());
    } else {
        assert(tx.len() >= wb) by (nonlinear_arith)
            requires
                tx.len() as int % wb == 0,
                tx.len() > 0,
                wb > 0,
        ;
        lemma_tx_words_prefix(tx, ts);
        let head = tx.subrange(0, tx.len() - wb);
        let tail = tx.subrange(tx.len() - wb, tx.len() as int);
        law_loopback(head, ts);
        law_word_round_trip(tail, ts);
        assert(tx_words(tx, ts).len() > 0);
        assert(head + tail =~= tx);
    }
}

} // verus!
