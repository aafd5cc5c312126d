//! The batching sink: the pending buffer with its retry discipline, and the
//! batched insert command.
use vstd::prelude::*;
use vstd::utf8::encode_utf8;
use std::collections::VecDeque;
use crate::models::{KdbTicker, UtcTime};
use crate::number::{
    all_digits, digits_value, exp_index, exponent_text, first_of, frac_part, int_part, is_digit,
    is_infinity_word, is_nan_word, is_number_text, lower_bytes, mantissa_text, spells,
    unsigned_body, Number, EXPONENT_LIMIT,
};
use crate::codec::{encode_message, frame};

verus! {

/// Nominal number of records in one batch.
pub const BATCH_SIZE: usize = 100;

/// Capacity of the hand-off queue between the feed client and the sink.
pub const HANDOFF_CAPACITY: usize = 1000;

/// Seconds from the Unix epoch to the store's epoch, 2000-01-01T00:00:00Z.
pub const STORE_EPOCH_SECS: i64 = 946_684_800;

/// Where the store's backend listens.
pub struct KdbClient {
    pub host: String,
    pub port: u16,
}

impl KdbClient {
    pub fn new(host: String, port: u16) -> (r: KdbClient)
        ensures
            r.host@ == host@,
            r.port == port,
    {
        KdbClient { host, port }
    }
}

/// Signed nanoseconds from the store's epoch to `t`, or zero where that does
/// not fit in an `i64`.
pub open spec fn store_nanos_spec(t: UtcTime) -> int {
    let v = (t.secs - STORE_EPOCH_SECS) * 1_000_000_000 + t.nanos;
    if i64::MIN <= v <= i64::MAX {
        v
    } else {
        0
    }
}

pub fn store_nanos(t: UtcTime) -> (r: i64)
    ensures
        r == store_nanos_spec(t),
{
    let v: i128 = (t.secs as i128 - STORE_EPOCH_SECS as i128) * 1_000_000_000i128 + t.nanos as i128;
    if i64::MIN as i128 <= v && v <= i64::MAX as i128 {
        v as i64
    } else {
        0
    }
}

pub open spec fn digit_char(d: nat) -> u8 {
    (48 + d % 10) as u8
}

/// Decimal digits of a natural number, without leading zeros.
pub open spec fn nat_text(n: nat) -> Seq<u8>
    decreases n,
{
    if n < 10 {
        seq![digit_char(n)]
    } else {
        nat_text(n / 10).push(digit_char(n))
    }
}

pub open spec fn abs(v: int) -> nat {
    if v < 0 {
        (-v) as nat
    } else {
        v as nat
    }
}

/// Signed integer text.
pub open spec fn int_text(v: int) -> Seq<u8> {
    if v < 0 {
        seq![45u8] + nat_text(abs(v))
    } else {
        nat_text(abs(v))
    }
}

/// Text of a number in the store's syntax: a finite one as its digits
/// followed, where the point or exponent moves it, by `e` and the power of
/// ten; infinities as `0w` and `-0w`; not-a-number as `0n`.
pub open spec fn number_text(n: Number) -> Seq<u8> {
    match n {
        Number::Finite { negative, digits, frac_len, exponent } => {
            let e = exponent - frac_len;
            (if negative {
                seq![45u8]
            } else {
                seq![]
            }) + digits@ + if e != 0 {
                seq![101u8] + int_text(e)
            } else {
                seq![]
            }
        },
        Number::Infinite { negative } => if negative {
            seq![45u8, 48u8, 119u8]
        } else {
            seq![48u8, 119u8]
        },
        Number::NotANumber => seq![48u8, 110u8],
    }
}

fn push_nat(out: &mut Vec<u8>, n: u128)
    ensures
        final(out)@ == old(out)@ + nat_text(n as nat),
    decreases n,
{
    if n >= 10 {
        push_nat(out, n / 10);
    }
    out.push((48 + n % 10) as u8);
    proof {
        if n < 10 {
            assert(old(out)@ + nat_text(n as nat) =~= old(out)@.push(digit_char(n as nat)));
        } else {
            assert(old(out)@ + nat_text(n as nat) =~= (old(out)@ + nat_text((n / 10) as nat)).push(
                digit_char(n as nat),
            ));
        }
    }
}

fn magnitude(v: i128) -> (r: u128)
    requires
        v > i128::MIN,
    ensures
        r == abs(v as int),
{
    if v < 0 {
        (-v) as u128
    } else {
        v as u128
    }
}

fn push_bytes(out: &mut Vec<u8>, b: &[u8])
    ensures
        final(out)@ == old(out)@ + b@,
{
    let mut i: usize = 0;
    while i < b.len()
        invariant
            0 <= i <= b@.len(),
            out@ == old(out)@ + b@.subrange(0, i as int),
        decreases b@.len() - i,
    {
        out.push(b[i]);
        i = i + 1;
        assert(old(out)@ + b@.subrange(0, i as int) =~= (old(out)@ + b@.subrange(0, i - 1)).push(
            b@[i - 1],
        ));
    }
    assert(b@.subrange(0, i as int) =~= b@);
}

fn push_int(out: &mut Vec<u8>, v: i128)
    requires
        v > i128::MIN,
    ensures
        final(out)@ == old(out)@ + int_text(v as int),
{
    if v < 0 {
        out.push(45u8);
    }
    push_nat(out, magnitude(v));
    assert(final(out)@ =~= old(out)@ + int_text(v as int));
}

fn push_number(out: &mut Vec<u8>, n: &Number)
    ensures
        final(out)@ == old(out)@ + number_text(*n),
{
    match n {
        Number::Finite { negative, digits, frac_len, exponent } => {
            if *negative {
                out.push(45u8);
            }
            push_bytes(out, digits.as_slice());
            let e: i128 = *exponent as i128 - *frac_len as i128;
            if e != 0 {
                out.push(101u8);
                push_int(out, e);
            }
        },
        Number::Infinite { negative } => {
            if *negative {
                out.push(45u8);
            }
            out.push(48u8);
            out.push(119u8);
        },
        Number::NotANumber => {
            out.push(48u8);
            out.push(110u8);
        },
    }
    assert(final(out)@ =~= old(out)@ + number_text(*n));
}

/// The text of one record in column `c` of the insert command: time, symbol,
/// bid, ask, bid size, ask size, last price, volume.
pub open spec fn cell(t: KdbTicker, c: int) -> Seq<u8> {
    if c == 0 {
        seq![48u8, 68u8] + int_text(store_nanos_spec(t.time))
    } else if c == 1 {
        seq![96u8] + encode_utf8(t.sym@)
    } else if c == 2 {
        number_text(t.bid)
    } else if c == 3 {
        number_text(t.ask)
    } else if c == 4 {
        number_text(t.bid_size)
    } else if c == 5 {
        number_text(t.ask_size)
    } else if c == 6 {
        number_text(t.last)
    } else {
        number_text(t.volume)
    }
}

/// Column `c` of a batch: one cell per record, in batch order.
pub open spec fn column(batch: Seq<KdbTicker>, c: int) -> Seq<Seq<u8>> {
    batch.map_values(|t: KdbTicker| cell(t, c))
}

/// Items separated by single spaces.
pub open spec fn join(items: Seq<Seq<u8>>) -> Seq<u8>
    decreases items.len(),
{
    if items.len() == 0 {
        seq![]
    } else if items.len() == 1 {
        items[0]
    } else {
        join(items.drop_last()).push(32u8) + items.last()
    }
}

fn push_cell(out: &mut Vec<u8>, t: &KdbTicker, c: u8)
    requires
        c < 8,
    ensures
        final(out)@ == old(out)@ + cell(*t, c as int),
{
    if c == 0 {
        out.push(48u8);
        out.push(68u8);
        push_int(out, store_nanos(t.time) as i128);
    } else if c == 1 {
        out.push(96u8);
        push_bytes(out, t.sym.as_str().as_bytes());
    } else if c == 2 {
        push_number(out, &t.bid);
    } else if c == 3 {
        push_number(out, &t.ask);
    } else if c == 4 {
        push_number(out, &t.bid_size);
    } else if c == 5 {
        push_number(out, &t.ask_size);
    } else if c == 6 {
        push_number(out, &t.last);
    } else {
        push_number(out, &t.volume);
    }
    assert(final(out)@ =~= old(out)@ + cell(*t, c as int));
}

fn push_column(out: &mut Vec<u8>, batch: &[KdbTicker], c: u8)
    requires
        c < 8,
    ensures
        final(out)@ == old(out)@ + join(column(batch@, c as int)),
{
    let ghost col = column(batch@, c as int);
    let mut i: usize = 0;
    while i < batch.len()
        invariant
            0 <= i <= batch@.len(),
            c < 8,
            col == column(batch@, c as int),
            out@ == old(out)@ + join(col.subrange(0, i as int)),
        decreases batch@.len() - i,
    {
        let ghost before = out@;
        if i > 0 {
            out.push(32u8);
        }
        push_cell(out, &batch[i], c);
        i = i + 1;
        proof {
            let s = col.subrange(0, i as int);
            assert(s.drop_last() =~= col.subrange(0, i - 1));
            assert(s.last() == cell(batch@[i - 1], c as int));
            if i == 1 {
                assert(join(s) == s[0]);
                assert(join(col.subrange(0, 0)) =~= Seq::<u8>::empty());
            }
            assert(out@ =~= old(out)@ + join(s));
        }
    }
    assert(col.subrange(0, i as int) =~= col);
}

/// The text between the columns of the insert command: the part before
/// column `c`, and after the last column its closing.
pub open spec fn label(c: int) -> Seq<u8> {
    if c == 0 {
        encode_utf8("`ticker insert ([] time:"@)
    } else if c == 1 {
        encode_utf8("; sym:"@)
    } else if c == 2 {
        encode_utf8("; bid:"@)
    } else if c == 3 {
        encode_utf8("; ask:"@)
    } else if c == 4 {
        encode_utf8("; bidSize:"@)
    } else if c == 5 {
        encode_utf8("; askSize:"@)
    } else if c == 6 {
        encode_utf8("; last:"@)
    } else if c == 7 {
        encode_utf8("; volume:"@)
    } else {
        encode_utf8(")"@)
    }
}

fn label_text(c: u8) -> (r: &'static str)
    requires
        c <= 8,
    ensures
        encode_utf8(r@) == label(c as int),
{
    if c == 0 {
        "`ticker insert ([] time:"
    } else if c == 1 {
        "; sym:"
    } else if c == 2 {
        "; bid:"
    } else if c == 3 {
        "; ask:"
    } else if c == 4 {
        "; bidSize:"
    } else if c == 5 {
        "; askSize:"
    } else if c == 6 {
        "; last:"
    } else if c == 7 {
        "; volume:"
    } else {
        ")"
    }
}

/// The command text up to column `c`: each label followed by its column.
pub open spec fn command_prefix(batch: Seq<KdbTicker>, c: nat) -> Seq<u8>
    decreases c,
{
    if c == 0 {
        seq![]
    } else {
        command_prefix(batch, (c - 1) as nat) + label(c - 1) + join(column(batch, c - 1))
    }
}

/// The insert command for a batch into table `ticker`: the eight columns as
/// parallel space-separated lists, each in batch order.
pub open spec fn insert_command_spec(batch: Seq<KdbTicker>) -> Seq<u8> {
    command_prefix(batch, 8) + label(8)
}

/// Builds the insert command for a batch.
pub fn build_insert_command(batch: &[KdbTicker]) -> (r: Vec<u8>)
    ensures
        r@ == insert_command_spec(batch@),
{
    let mut out: Vec<u8> = Vec::new();
    let mut c: u8 = 0;
    while c < 8
        invariant
            c <= 8,
            out@ == command_prefix(batch@, c as nat),
        decreases 8 - c,
    {
        push_bytes(&mut out, label_text(c).as_bytes());
        push_column(&mut out, batch, c);
        c = c + 1;
    }
    push_bytes(&mut out, label_text(8).as_bytes());
    out
}

/// The frame that carries the insert command for a batch, or `None` where
/// the command is too long for the frame's length field.
pub fn insert_frame(batch: &[KdbTicker]) -> (r: Option<Vec<u8>>)
    ensures
        insert_command_spec(batch@).len() + 9 <= u32::MAX <==> r is Some,
        r matches Some(f) ==> f@ == frame(insert_command_spec(batch@)),
{
    let cmd = build_insert_command(batch);
    if cmd.len() > (u32::MAX - 9) as usize {
        None
    } else {
        Some(encode_message(cmd.as_slice()))
    }
}

/// Records that wait to be flushed, oldest first.
pub struct PendingBuffer {
    records: VecDeque<KdbTicker>,
}

impl View for PendingBuffer {
    type V = Seq<KdbTicker>;

    closed spec fn view(&self) -> Seq<KdbTicker> {
        self.records@
    }
}

/// The buffer after a failed batch is put back: the batch, in its order,
/// ahead of what arrived meanwhile.
pub open spec fn restored(batch: Seq<KdbTicker>, pending: Seq<KdbTicker>) -> Seq<KdbTicker> {
    batch + pending
}

impl PendingBuffer {
    pub fn new() -> (r: PendingBuffer)
        ensures
            r@ == Seq::<KdbTicker>::empty(),
    {
        PendingBuffer { records: VecDeque::new() }
    }

    pub fn len(&self) -> (r: usize)
        ensures
            r == self@.len(),
    {
        self.records.len()
    }

    /// Appends a record at the back.
    pub fn push(&mut self, record: KdbTicker)
        ensures
            final(self)@ == old(self)@.push(record),
    {
        self.records.push_back(record);
    }

    /// Whether the buffer holds more than ten batches' worth of records.
    pub fn is_large(&self) -> (r: bool)
        ensures
            r == (self@.len() > 10 * BATCH_SIZE),
    {
        self.records.len() > 10 * BATCH_SIZE
    }

    /// Takes every record out, in order, leaving the buffer empty.
    pub fn take_all(&mut self) -> (r: Vec<KdbTicker>)
        ensures
            r@ == old(self)@,
            final(self)@ == Seq::<KdbTicker>::empty(),
    {
        let ghost all = self.records@;
        let mut out: Vec<KdbTicker> = Vec::new();
        while self.records.len() > 0
            invariant
                out@ + self.records@ == all,
            decreases self.records@.len(),
        {
            let ghost rest = self.records@;
            match self.records.pop_front() {
                Some(t) => {
                    out.push(t);
                    assert(out@ + self.records@ =~= all);
                },
                None => {},
            }
        }
        assert(out@ =~= all);
        out
    }

    /// Puts a batch back at the front, in its order, ahead of what the
    /// buffer holds.
    pub fn restore_front(&mut self, batch: Vec<KdbTicker>)
        ensures
            final(self)@ == restored(batch@, old(self)@),
    {
        let mut batch = batch;
        let ghost whole = batch@;
        while batch.len() > 0
            invariant
                batch@ + self.records@ == restored(whole, old(self)@),
            decreases batch@.len(),
        {
            let t = batch.pop().unwrap();
            self.records.push_front(t);
            assert(batch@ + self.records@ =~= restored(whole, old(self)@));
        }
        assert(self.records@ =~= restored(whole, old(self)@));
    }
}

/// Starts a flush: takes the whole buffer as one batch, or nothing where the
/// buffer is empty.
pub fn start_flush(buffer: &mut PendingBuffer) -> (r: Option<Vec<KdbTicker>>)
    ensures
        old(buffer)@.len() == 0 <==> r is None,
        r is None ==> final(buffer)@ == old(buffer)@,
        r matches Some(batch) ==> batch@ == old(buffer)@ && final(buffer)@ == Seq::<KdbTicker>::empty(),
{
    if buffer.len() == 0 {
        None
    } else {
        Some(buffer.take_all())
    }
}

/// Ends a flush: a batch that was not sent goes back to the front of the
/// buffer; one that was sent is done with.
pub fn finish_flush(buffer: &mut PendingBuffer, batch: Vec<KdbTicker>, sent: bool)
    ensures
        sent ==> final(buffer)@ == old(buffer)@,
        !sent ==> final(buffer)@ == restored(batch@, old(buffer)@),
{
    if !sent {
        buffer.restore_front(batch);
    }
}

/// A batch whose write failed is back at the front of the buffer, whole and
/// in its order, and the next flush takes it before every record that
/// arrived after the failure.
pub proof fn lemma_failed_batch_sent_first(
    batch: Seq<KdbTicker>,
    arrived: Seq<KdbTicker>,
    later: Seq<KdbTicker>,
)
    ensures
        restored(batch, arrived).subrange(0, batch.len() as int) == batch,
        restored(batch, arrived).subrange(batch.len() as int, restored(batch, arrived).len() as int)
            == arrived,
        (restored(batch, arrived) + later).subrange(0, batch.len() as int) == batch,
{
    assert(restored(batch, arrived).subrange(0, batch.len() as int) =~= batch);
    assert(restored(batch, arrived).subrange(batch.len() as int, restored(batch, arrived).len() as int)
        =~= arrived);
    assert((restored(batch, arrived) + later).subrange(0, batch.len() as int) =~= batch);
}

/// The sink's order: what was sent, then the batch in flight, then the
/// buffer, is everything received, in the order it arrived.
pub open spec fn arrival_order(
    received: Seq<KdbTicker>,
    sent: Seq<KdbTicker>,
    in_flight: Seq<KdbTicker>,
    buffer: Seq<KdbTicker>,
) -> bool {
    sent + in_flight + buffer == received
}

/// Every step of the sink keeps the arrival order: a record drained into the
/// buffer, a flush that takes the buffer, a batch sent, and a failed batch
/// put back at the front. So records reach the store in the order they
/// arrived, across any number of ticks and retries.
pub proof fn lemma_sink_keeps_arrival_order(
    received: Seq<KdbTicker>,
    sent: Seq<KdbTicker>,
    in_flight: Seq<KdbTicker>,
    buffer: Seq<KdbTicker>,
    r: KdbTicker,
)
    requires
        arrival_order(received, sent, in_flight, buffer),
    ensures
        arrival_order(received.push(r), sent, in_flight, buffer.push(r)),
        in_flight.len() == 0 ==> arrival_order(received, sent, buffer, Seq::<KdbTicker>::empty()),
        arrival_order(received, sent + in_flight, Seq::<KdbTicker>::empty(), buffer),
        arrival_order(received, sent, Seq::<KdbTicker>::empty(), restored(in_flight, buffer)),
        sent.len() <= received.len() && received.subrange(0, sent.len() as int) == sent,
{
    assert(sent + in_flight + buffer.push(r) =~= received.push(r));
    if in_flight.len() == 0 {
        assert(sent + buffer + Seq::<KdbTicker>::empty() =~= received);
    }
    assert((sent + in_flight) + Seq::<KdbTicker>::empty() + buffer =~= received);
    assert(sent + Seq::<KdbTicker>::empty() + restored(in_flight, buffer) =~= received);
    assert(received.subrange(0, sent.len() as int) =~= sent);
}

/// Each of the insert command's columns holds one cell per record of the
/// batch, the `i`-th cell of every column coming from the `i`-th record;
/// the command is the labels and the columns in turn.
pub proof fn lemma_columns_aligned(batch: Seq<KdbTicker>)
    ensures
        insert_command_spec(batch) == label(0) + join(column(batch, 0)) + label(1) + join(
            column(batch, 1),
        ) + label(2) + join(column(batch, 2)) + label(3) + join(column(batch, 3)) + label(4)
            + join(column(batch, 4)) + label(5) + join(column(batch, 5)) + label(6) + join(
            column(batch, 6),
        ) + label(7) + join(column(batch, 7)) + label(8),
        forall|c: int| 0 <= c < 8 ==> (#[trigger] column(batch, c)).len() == batch.len(),
        forall|c: int, i: int|
            0 <= c < 8 && 0 <= i < batch.len() ==> #[trigger] column(batch, c)[i] == cell(
                batch[i],
                c,
            ),
{
    reveal_with_fuel(command_prefix, 9);
    assert(command_prefix(batch, 0) =~= Seq::<u8>::empty());
    assert(insert_command_spec(batch) =~= label(0) + join(column(batch, 0)) + label(1) + join(
        column(batch, 1),
    ) + label(2) + join(column(batch, 2)) + label(3) + join(column(batch, 3)) + label(4) + join(
        column(batch, 4),
    ) + label(5) + join(column(batch, 5)) + label(6) + join(column(batch, 6)) + label(7) + join(
        column(batch, 7),
    ) + label(8));
}

/// How many times byte `b` occurs in `s`.
pub open spec fn count_byte(s: Seq<u8>, b: u8) -> nat
    decreases s.len(),
{
    if s.len() == 0 {
        0
    } else {
        count_byte(s.drop_last(), b) + if s.last() == b {
            1nat
        } else {
            0nat
        }
    }
}

/// A cell that can stand between separators: not empty, and without a space.
pub open spec fn plain_cell(s: Seq<u8>) -> bool {
    s.len() > 0 && count_byte(s, 32u8) == 0
}

proof fn lemma_count_concat(a: Seq<u8>, b: Seq<u8>, x: u8)
    ensures
        count_byte(a + b, x) == count_byte(a, x) + count_byte(b, x),
    decreases b.len(),
{
    if b.len() == 0 {
        assert(a + b =~= a);
    } else {
        assert((a + b).drop_last() =~= a + b.drop_last());
        lemma_count_concat(a, b.drop_last(), x);
    }
}

proof fn lemma_nat_text_plain(n: nat)
    ensures
        plain_cell(nat_text(n)),
    decreases n,
{
    let t = nat_text(n);
    assert(digit_char(n) != 32u8);
    if n < 10 {
        assert(t.drop_last() =~= Seq::<u8>::empty());
        assert(count_byte(t.drop_last(), 32u8) == 0);
    } else {
        lemma_nat_text_plain(n / 10);
        assert(t.drop_last() =~= nat_text(n / 10));
    }
    assert(t.last() == digit_char(n));
    assert(count_byte(t, 32u8) == count_byte(t.drop_last(), 32u8));
}

proof fn lemma_digits_no_space(s: Seq<u8>)
    requires
        all_digits(s),
    ensures
        count_byte(s, 32u8) == 0,
    decreases s.len(),
{
    if s.len() > 0 {
        let f = s.drop_last();
        assert forall|i: int| 0 <= i < f.len() implies is_digit(#[trigger] f[i]) by {
            assert(f[i] == s[i]);
        }
        lemma_digits_no_space(f);
        assert(is_digit(s[s.len() - 1]));
    }
}

proof fn lemma_literal_no_space(s: Seq<u8>)
    requires
        s.len() <= 3,
        forall|i: int| 0 <= i < s.len() ==> s[i] != 32u8,
    ensures
        count_byte(s, 32u8) == 0,
    decreases s.len(),
{
    if s.len() > 0 {
        let f = s.drop_last();
        assert forall|i: int| 0 <= i < f.len() implies f[i] != 32u8 by {
            assert(f[i] == s[i]);
        }
        lemma_literal_no_space(f);
    }
}

proof fn lemma_number_plain(n: Number)
    requires
        n.wf(),
    ensures
        plain_cell(number_text(n)),
{
    match n {
        Number::Finite { negative, digits, frac_len, exponent } => {
            let e = exponent - frac_len;
            let sign: Seq<u8> = if negative {
                seq![45u8]
            } else {
                seq![]
            };
            let tail: Seq<u8> = if e != 0 {
                seq![101u8] + int_text(e)
            } else {
                seq![]
            };
            lemma_literal_no_space(sign);
            lemma_digits_no_space(digits@);
            if e != 0 {
                lemma_nat_text_plain(abs(e));
                lemma_signed_plain(e < 0, nat_text(abs(e)));
                lemma_literal_no_space(seq![101u8]);
                lemma_count_concat(seq![101u8], int_text(e), 32u8);
            } else {
                lemma_literal_no_space(tail);
            }
            lemma_count_concat(sign, digits@, 32u8);
            lemma_count_concat(sign + digits@, tail, 32u8);
            assert(number_text(n) == sign + digits@ + tail);
        },
        Number::Infinite { negative } => {
            if negative {
                lemma_literal_no_space(seq![45u8, 48u8, 119u8]);
            } else {
                lemma_literal_no_space(seq![48u8, 119u8]);
            }
        },
        Number::NotANumber => {
            lemma_literal_no_space(seq![48u8, 110u8]);
        },
    }
}

proof fn lemma_signed_plain(neg: bool, t: Seq<u8>)
    requires
        plain_cell(t),
    ensures
        plain_cell(if neg {
            seq![45u8] + t
        } else {
            t
        }),
{
    lemma_count_concat(seq![45u8], t, 32u8);
    let m = seq![45u8];
    assert(m.drop_last() =~= Seq::<u8>::empty());
    assert(count_byte(m.drop_last(), 32u8) == 0);
    assert(m.last() == 45u8);
    assert(count_byte(m, 32u8) == 0);
}

proof fn lemma_cell_plain(t: KdbTicker, c: int)
    requires
        0 <= c < 8,
        t.wf(),
        count_byte(encode_utf8(t.sym@), 32u8) == 0,
    ensures
        plain_cell(cell(t, c)),
{
    if c == 0 {
        let v = store_nanos_spec(t.time);
        lemma_nat_text_plain(abs(v));
        lemma_signed_plain(v < 0, nat_text(abs(v)));
        lemma_count_concat(seq![48u8, 68u8], int_text(v), 32u8);
        let p = seq![48u8, 68u8];
        assert(p.drop_last() =~= seq![48u8]);
        assert(seq![48u8].drop_last() =~= Seq::<u8>::empty());
        assert(count_byte(Seq::<u8>::empty(), 32u8) == 0);
        assert(seq![48u8].last() == 48u8);
        assert(count_byte(seq![48u8], 32u8) == 0);
        assert(p.last() == 68u8);
        assert(count_byte(p, 32u8) == 0);
        assert(cell(t, c) == p + int_text(v));
    } else if c == 1 {
        lemma_count_concat(seq![96u8], encode_utf8(t.sym@), 32u8);
        let p = seq![96u8];
        assert(p.drop_last() =~= Seq::<u8>::empty());
        assert(count_byte(Seq::<u8>::empty(), 32u8) == 0);
        assert(p.last() == 96u8);
        assert(count_byte(p, 32u8) == 0);
        assert(cell(t, c) == p + encode_utf8(t.sym@));
    } else {
        let d = if c == 2 {
            t.bid
        } else if c == 3 {
            t.ask
        } else if c == 4 {
            t.bid_size
        } else if c == 5 {
            t.ask_size
        } else if c == 6 {
            t.last
        } else {
            t.volume
        };
        assert(cell(t, c) == number_text(d));
        lemma_number_plain(d);
    }
}

proof fn lemma_join_spaces(items: Seq<Seq<u8>>)
    requires
        items.len() > 0,
        forall|i: int| 0 <= i < items.len() ==> plain_cell(#[trigger] items[i]),
    ensures
        count_byte(join(items), 32u8) == items.len() - 1,
    decreases items.len(),
{
    if items.len() > 1 {
        let front = items.drop_last();
        assert forall|i: int| 0 <= i < front.len() implies plain_cell(#[trigger] front[i]) by {
            assert(front[i] == items[i]);
        }
        lemma_join_spaces(front);
        let j = join(front).push(32u8);
        assert(j.drop_last() =~= join(front));
        lemma_count_concat(j, items.last(), 32u8);
    }
}

/// For a batch of `N` records whose symbols hold no space, each of the
/// insert command's columns is `N` cells, none empty and none holding a
/// space, separated by `N - 1` single spaces; its `i`-th cell comes from the
/// `i`-th record.
pub proof fn lemma_column_elements(batch: Seq<KdbTicker>, c: int)
    requires
        0 <= c < 8,
        batch.len() > 0,
        forall|i: int| 0 <= i < batch.len() ==> (#[trigger] batch[i]).wf(),
        forall|i: int| 0 <= i < batch.len() ==> count_byte(encode_utf8((#[trigger] batch[i]).sym@), 32u8) == 0,
    ensures
        column(batch, c).len() == batch.len(),
        forall|i: int| 0 <= i < batch.len() ==> #[trigger] column(batch, c)[i] == cell(batch[i], c),
        forall|i: int| 0 <= i < batch.len() ==> plain_cell(#[trigger] column(batch, c)[i]),
        count_byte(join(column(batch, c)), 32u8) == batch.len() - 1,
{
    let col = column(batch, c);
    assert forall|i: int| 0 <= i < batch.len() implies plain_cell(#[trigger] column(batch, c)[i]) by {
        lemma_cell_plain(batch[i], c);
    }
    lemma_join_spaces(col);
}

/// The value of a finite number as sign, digits and power of ten.
pub open spec fn finite_key(n: Number) -> (bool, Seq<u8>, int) {
    match n {
        Number::Finite { negative, digits, frac_len, exponent } => (
            negative,
            digits@,
            exponent - frac_len,
        ),
        _ => (false, seq![], 0),
    }
}

proof fn lemma_nat_text_value(n: nat)
    ensures
        digits_value(nat_text(n)) == n,
        all_digits(nat_text(n)),
        nat_text(n).len() > 0,
    decreases n,
{
    let t = nat_text(n);
    assert(t.last() == digit_char(n));
    assert((t.last() - 48) as nat == n % 10);
    assert(n == (n / 10) * 10 + n % 10);
    if n < 10 {
        assert(t.drop_last() =~= Seq::<u8>::empty());
        assert(digits_value(t.drop_last()) == 0);
    } else {
        lemma_nat_text_value(n / 10);
        assert(t.drop_last() =~= nat_text(n / 10));
        assert forall|i: int| 0 <= i < t.len() implies is_digit(#[trigger] t[i]) by {
            if i < t.len() - 1 {
                assert(t[i] == nat_text(n / 10)[i]);
            }
        }
    }
}

proof fn lemma_first_of_concat(a: Seq<u8>, b: Seq<u8>, x: u8, y: u8)
    requires
        forall|i: int| 0 <= i < a.len() ==> a[i] != x && a[i] != y,
    ensures
        first_of(a + b, x, y) == a.len() + first_of(b, x, y),
    decreases a.len(),
{
    if a.len() > 0 {
        let f = a.drop_first();
        assert forall|i: int| 0 <= i < f.len() implies f[i] != x && f[i] != y by {
            assert(f[i] == a[i + 1]);
        }
        lemma_first_of_concat(f, b, x, y);
        assert((a + b).drop_first() =~= f + b);
        assert((a + b)[0] == a[0]);
    } else {
        assert(a + b =~= b);
    }
}

/// A finite number's text in the insert command reads back, as numeric
/// text, to a number with the same sign, digits and power of ten.
pub proof fn lemma_number_reads_back(n: Number, m: Number)
    requires
        n.wf(),
        n is Finite,
        -EXPONENT_LIMIT <= finite_key(n).2 <= EXPONENT_LIMIT,
        spells(number_text(n), m),
    ensures
        is_number_text(number_text(n)),
        m is Finite,
        finite_key(m) == finite_key(n),
{
    let (neg, ds, k) = finite_key(n);
    let sign: Seq<u8> = if neg {
        seq![45u8]
    } else {
        seq![]
    };
    let tail: Seq<u8> = if k != 0 {
        seq![101u8] + int_text(k)
    } else {
        seq![]
    };
    let text = number_text(n);
    let body = ds + tail;
    assert(text == sign + body);
    assert(unsigned_body(text) =~= body) by {
        assert(ds[0] == body[0]);
        if neg {
            assert(text.drop_first() =~= body);
        } else {
            assert(text =~= body);
        }
    }
    assert(is_digit(ds[0]));
    assert(lower_bytes(body)[0] == ds[0]);
    assert(!is_infinity_word(body)) by {
        if is_infinity_word(body) {
            assert(lower_bytes(body)[0] == 105u8);
        }
    }
    assert(!is_nan_word(body)) by {
        if is_nan_word(body) {
            assert(lower_bytes(body)[0] == 110u8);
        }
    }
    assert forall|i: int| 0 <= i < ds.len() implies ds[i] != 101u8 && ds[i] != 69u8 && ds[i] != 46u8 by {
        assert(is_digit(ds[i]));
    }
    lemma_first_of_concat(ds, tail, 101u8, 69u8);
    if k != 0 {
        assert(tail[0] == 101u8);
    } else {
        assert(body =~= ds);
    }
    assert(exp_index(body) == ds.len());
    assert(mantissa_text(body) =~= ds);
    lemma_first_of_concat(ds, Seq::<u8>::empty(), 46u8, 46u8);
    assert(ds + Seq::<u8>::empty() =~= ds);
    assert(int_part(ds) =~= ds);
    assert(frac_part(ds) =~= Seq::<u8>::empty());
    assert(int_part(ds) + frac_part(ds) =~= ds);
    if k != 0 {
        let et = exponent_text(body);
        assert(et =~= int_text(k));
        lemma_nat_text_value(abs(k));
        let u = nat_text(abs(k));
        assert(is_digit(u[0]));
        if k < 0 {
            assert(et.drop_first() =~= u);
        }
        assert(unsigned_body(et) =~= u);
    }
}

} // verus!
