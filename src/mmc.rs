//! SD/MMC host controller driver: controller bring-up, single command
//! transactions, the SD card identification handshake and single-block
//! transfers through the data FIFO.
//!
//! The driver keeps ghost records of what it did: every register access, in
//! order, with the value read or written (`SdMmc::trace`); every command
//! transaction (`SdMmc::txns`); every word taken from or handed to the data
//! FIFO (`SdMmc::fifo_in`, `SdMmc::fifo_out`). The contracts state over these
//! records the exact sequence each operation performs, as a function of the
//! values the hardware returned. Every polling loop reads at most `budget`
//! times, a budget fixed when the driver is made.
use vstd::prelude::*;
use crate::window::{Access, RegisterWindow};

verus! {

/// Base address of the first SD/MMC controller (the TF card slot).
pub const SDMMC0_BASE: usize = 0xFE2C0000;

/// Control register: reset, FIFO reset, DMA reset bits.
pub const CTRL: usize = 0x000;
/// Card power enable.
pub const PWREN: usize = 0x004;
/// Clock divider.
pub const CLKDIV: usize = 0x008;
/// Clock enable.
pub const CLKENA: usize = 0x010;
/// Hardware response/data timeout.
pub const TMOUT: usize = 0x014;
/// Bus width.
pub const CTYPE: usize = 0x018;
/// Transfer block size.
pub const BLKSIZ: usize = 0x01C;
/// Transfer byte count.
pub const BYTCNT: usize = 0x020;
/// Command argument.
pub const CMDARG: usize = 0x028;
/// Command index and start bit.
pub const CMD: usize = 0x02C;
/// First response word.
pub const RESP0: usize = 0x030;
/// FIFO thresholds and burst size.
pub const FIFOTH: usize = 0x04C;
/// Card detect: bit 0 clear when a card is present.
pub const CDETECT: usize = 0x050;

/// Controller reset, FIFO reset and DMA reset, set together.
pub const CTRL_RESET_ALL: u32 = 0x7;
/// Command start bit; the controller clears it when the command completes.
pub const CMD_START: u32 = 0x8000_0000;
/// Command word that asks the controller to take up new clock settings
/// (start, wait for previous data, update clock registers only).
pub const CMD_UPDATE_CLOCK: u32 = 0x8020_2000;

/// Source clock assumed for the divider.
pub const SOURCE_CLOCK: u32 = 50_000_000;
/// Identification clock frequency.
pub const IDENT_FREQ: u32 = 400_000;
/// Largest value of the timeout register.
pub const MAX_TIMEOUT: u32 = 0xFFFF_FFFF;
/// Polling budget used by `SdMmc::new`.
pub const DEFAULT_BUDGET: u32 = 10000;

/// Receive FIFO threshold used at bring-up.
pub const FIFO_RX_THRESHOLD: u32 = 7;
/// Transmit FIFO threshold used at bring-up.
pub const FIFO_TX_THRESHOLD: u32 = 8;
/// Burst size code used at bring-up.
pub const FIFO_BURST_CODE: u32 = 2;

/// SD command: go idle state.
pub const CMD0_GO_IDLE_STATE: u32 = 0;
/// SD command: send interface condition.
pub const CMD8_SEND_IF_COND: u32 = 8;
/// SD command: application command prefix.
pub const CMD55_APP_CMD: u32 = 55;
/// SD application command: send operating condition.
pub const ACMD41_SD_SEND_OP_COND: u32 = 41;
/// Interface condition argument: 2.7-3.6 V and check pattern 0xAA.
pub const IF_COND_ARG: u32 = 0x1AA;
/// Operating condition argument: high capacity support and the
/// 2.7-3.6 V voltage window.
pub const OP_COND_ARG: u32 = 0x40FF_8000;
/// Operating condition response bit set once the card finished power-up.
pub const OCR_POWER_UP_DONE: u32 = 0x8000_0000;

/// Raw interrupt status: data CRC error, data timeout and other events;
/// a bit is cleared by writing 1 to it.
pub const RINTSTS: usize = 0x044;
/// Value that clears every raw interrupt status bit.
pub const RINTSTS_CLEAR: u32 = 0xFFFF_FFFF;
/// Raw interrupt status bit: data CRC error.
pub const RINTSTS_DATA_CRC: u32 = 0x80;
/// Raw interrupt status bit: data read timeout.
pub const RINTSTS_DATA_TIMEOUT: u32 = 0x200;
/// Status register.
pub const STATUS: usize = 0x048;
/// Data FIFO port.
pub const DATA: usize = 0x200;
/// Status bit: the data FIFO is empty.
pub const STATUS_FIFO_EMPTY: u32 = 0x4;
/// Status bit: the data FIFO is full.
pub const STATUS_FIFO_FULL: u32 = 0x8;
/// Bytes in one storage block.
pub const BLOCK_SIZE: usize = 512;
/// Data FIFO words in one storage block.
pub const BLOCK_WORDS: usize = 128;
/// SD command: read single block.
pub const CMD17_READ_SINGLE_BLOCK: u32 = 17;
/// SD command: write single block.
pub const CMD24_WRITE_BLOCK: u32 = 24;
/// Command flags of a block read: response expected, response CRC checked,
/// data expected, wait for previous data.
pub const READ_FLAGS: u32 = 0x2340;
/// Command flags of a block write: those of a read, and the write direction.
pub const WRITE_FLAGS: u32 = 0x2740;

/// Failures of the SD/MMC driver.
#[derive(Debug, Clone, Copy, PartialEq, Eq, Structural)]
pub enum MmcError {
    InitFailed,
    ResetTimeout,
    CommandTimeout,
    CardNotPresent,
    UnsupportedCard,
    /// The controller reported a CRC error on a block's data.
    DataCrc,
}

/// Where card bring-up stands. Each step that completes moves one state on;
/// a failed step ends in `Failed` with its error; `Ready` and `Failed` are
/// final.
#[derive(Debug, Clone, Copy, PartialEq, Eq, Structural)]
pub enum CardState {
    Absent,
    Detected,
    Reset,
    Identifying,
    Ready,
    Failed(MmcError),
}

/// The transition of `CardState`.
pub open spec fn advance_spec(state: CardState, step: Result<(), MmcError>) -> CardState {
    match state {
        CardState::Ready => CardState::Ready,
        CardState::Failed(e) => CardState::Failed(e),
        _ => match step {
            Err(e) => CardState::Failed(e),
            Ok(()) => match state {
                CardState::Absent => CardState::Detected,
                CardState::Detected => CardState::Reset,
                CardState::Reset => CardState::Identifying,
                _ => CardState::Ready,
            },
        },
    }
}

impl CardState {
    /// The state after a step taken in this state ended with `step`.
    pub fn advance(self, step: Result<(), MmcError>) -> (r: CardState)
        ensures
            r == advance_spec(self, step),
    {
        match self {
            CardState::Ready => CardState::Ready,
            CardState::Failed(e) => CardState::Failed(e),
            _ => match step {
                Err(e) => CardState::Failed(e),
                Ok(()) => match self {
                    CardState::Absent => CardState::Detected,
                    CardState::Detected => CardState::Reset,
                    CardState::Reset => CardState::Identifying,
                    _ => CardState::Ready,
                },
            },
        }
    }
}

/// One command transaction: index, argument and outcome.
#[derive(Clone, Copy)]
pub struct Txn {
    pub cmd: u32,
    pub arg: u32,
    pub res: Result<u32, MmcError>,
}

/// `floor(src_clk / (2 * freq)) & 0xFF`, and 0 for a target of 0.
pub open spec fn divisor_spec(src_clk: u32, freq: u32) -> int {
    if freq == 0 { 0 } else { (src_clk as int / (2 * freq as int)) % 256 }
}

/// Clock divisor for a target frequency: `floor(src_clk / (2 * freq)) & 0xFF`,
/// and 0 for a target of 0.
pub fn clock_divisor(src_clk: u32, freq: u32) -> (r: u32)
    ensures
        r as int == divisor_spec(src_clk, freq),
{
    if freq == 0 {
        0
    } else {
        let q: u64 = (src_clk as u64) / (2 * (freq as u64));
        assert(q & 0xFF == q % 256) by (bit_vector);
        (q & 0xFF) as u32
    }
}

/// Bus type encoding: 4 bits is 0x1, 8 bits is 0x10000, anything else 0x0.
pub open spec fn bus_width_spec(width: u32) -> u32 {
    if width == 4 {
        0x1
    } else if width == 8 {
        0x10000
    } else {
        0x0
    }
}

/// Bus type register encoding of a bus width; widths other than 4 and 8
/// are taken as 1-bit.
pub fn bus_width_encoding(width: u32) -> (r: u32)
    ensures
        r == bus_width_spec(width),
{
    match width {
        4 => 0x1,
        8 => 0x10000,
        _ => 0x0,
    }
}

/// Packed FIFO thresholds: `burst << 28 | rx << 16 | tx` for fields in range.
pub open spec fn fifo_threshold_spec(rx: u32, tx: u32, burst: u32) -> int {
    burst as int * 0x1000_0000 + rx as int * 0x1_0000 + tx as int
}

/// Packed FIFO threshold value: receive threshold in bits 23..16, transmit
/// threshold in bits 7..0, burst size code in bits 30..28.
pub fn fifo_threshold(rx: u32, tx: u32, burst: u32) -> (r: u32)
    requires
        rx < 256,
        tx < 256,
        burst < 8,
    ensures
        r as int == fifo_threshold_spec(rx, tx, burst),
        r == (burst << 28u32) | (rx << 16u32) | tx,
{
    assert((burst << 28u32) | (rx << 16u32) | tx == burst * 0x1000_0000 + rx * 0x1_0000 + tx)
        by (bit_vector)
        requires rx < 256, tx < 256, burst < 8;
    (burst << 28) | (rx << 16) | tx
}

/// Card detect value that means a card is present.
pub open spec fn present_spec(cdetect: u32) -> bool {
    cdetect & 1 == 0
}

/// Value held by an access: the value read or the value written.
pub open spec fn value_of(a: Access) -> u32 {
    match a {
        Access::Read(_, v) => v,
        Access::Write(_, v) => v,
    }
}

/// A read of `offset` that saw some bit of `mask` set.
pub open spec fn busy_read(a: Access, offset: usize, mask: u32) -> bool {
    a == Access::Read(offset, value_of(a)) && value_of(a) & mask != 0
}

/// A read of `offset` that saw every bit of `mask` clear.
pub open spec fn clear_read(a: Access, offset: usize, mask: u32) -> bool {
    a == Access::Read(offset, value_of(a)) && value_of(a) & mask == 0
}

/// A poll of `offset` that ended seeing `mask` clear: at most `budget`
/// reads, all of them busy but the last.
pub open spec fn poll_succeeded(t: Seq<Access>, offset: usize, mask: u32, budget: u32) -> bool {
    &&& 1 <= t.len() <= budget
    &&& forall|i: int| 0 <= i < t.len() - 1 ==> busy_read(#[trigger] t[i], offset, mask)
    &&& clear_read(t.last(), offset, mask)
}

/// A poll of `offset` that used up its budget: exactly `budget` reads, all busy.
pub open spec fn poll_exhausted(t: Seq<Access>, offset: usize, mask: u32, budget: u32) -> bool {
    &&& t.len() == budget
    &&& forall|i: int| 0 <= i < t.len() ==> busy_read(#[trigger] t[i], offset, mask)
}

/// Controller reset: the reset bits written, then a poll until they clear.
pub open spec fn reset_run(t: Seq<Access>, budget: u32, ok: bool) -> bool {
    &&& t.len() >= 1
    &&& t[0] == Access::Write(CTRL, CTRL_RESET_ALL)
    &&& if ok {
        poll_succeeded(t.skip(1), CTRL, CTRL_RESET_ALL, budget)
    } else {
        poll_exhausted(t.skip(1), CTRL, CTRL_RESET_ALL, budget)
    }
}

/// Clock update handshake: the update command written, then a poll of the
/// start bit whose outcome is tolerated either way.
pub open spec fn clock_update_run(t: Seq<Access>, budget: u32) -> bool {
    &&& t.len() >= 1
    &&& t[0] == Access::Write(CMD, CMD_UPDATE_CLOCK)
    &&& (poll_succeeded(t.skip(1), CMD, CMD_START, budget) || poll_exhausted(
        t.skip(1),
        CMD,
        CMD_START,
        budget,
    ))
}

/// Clock programming: clock off, update, divisor, clock on, update.
pub open spec fn clock_run(t: Seq<Access>, freq: u32, budget: u32) -> bool {
    exists|u1: Seq<Access>, u2: Seq<Access>|
        #![trigger clock_update_run(u1, budget), clock_update_run(u2, budget)]
        {
            &&& clock_update_run(u1, budget)
            &&& clock_update_run(u2, budget)
            &&& t == seq![Access::Write(CLKENA, 0)] + u1 + seq![
                Access::Write(CLKDIV, divisor_spec(SOURCE_CLOCK, freq) as u32),
                Access::Write(CLKENA, 1),
            ] + u2
        }
}

/// The fire-and-forget steps that follow a successful reset: power, clock at
/// the identification frequency, 1-bit bus, largest timeout, FIFO thresholds.
pub open spec fn configure_run(t: Seq<Access>, budget: u32) -> bool {
    exists|c: Seq<Access>|
        #![trigger clock_run(c, IDENT_FREQ, budget)]
        {
            &&& clock_run(c, IDENT_FREQ, budget)
            &&& t == seq![Access::Write(PWREN, 1)] + c + seq![
                Access::Write(CTYPE, bus_width_spec(1)),
                Access::Write(TMOUT, MAX_TIMEOUT),
                Access::Write(
                    FIFOTH,
                    fifo_threshold_spec(FIFO_RX_THRESHOLD, FIFO_TX_THRESHOLD, FIFO_BURST_CODE) as u32,
                ),
            ]
        }
}

/// Controller bring-up as a whole, with its outcome `res`.
pub open spec fn init_run(t: Seq<Access>, budget: u32, res: Result<(), MmcError>) -> bool {
    &&& t.len() >= 1
    &&& t[0] == Access::Read(CDETECT, value_of(t[0]))
    &&& if !present_spec(value_of(t[0])) {
        res == Err::<(), MmcError>(MmcError::CardNotPresent) && t.len() == 1
    } else {
        exists|r: Seq<Access>, rest: Seq<Access>|
            #![trigger r + rest]
            {
                &&& t.skip(1) == r + rest
                &&& if res is Ok {
                    reset_run(r, budget, true) && configure_run(rest, budget)
                } else {
                    res == Err::<(), MmcError>(MmcError::ResetTimeout) && reset_run(r, budget, false)
                        && rest.len() == 0
                }
            }
    }
}

/// A single command transaction: argument, then index with the start bit,
/// then a poll of the start bit and, when it cleared, a read of the first
/// response word, which is the result.
pub open spec fn command_run(
    t: Seq<Access>,
    cmd: u32,
    arg: u32,
    budget: u32,
    res: Result<u32, MmcError>,
) -> bool {
    &&& t.len() >= 2
    &&& t[0] == Access::Write(CMDARG, arg)
    &&& t[1] == Access::Write(CMD, CMD_START | cmd)
    &&& match res {
        Ok(r) => {
            &&& t.len() >= 3
            &&& poll_succeeded(t.subrange(2, t.len() - 1), CMD, CMD_START, budget)
            &&& t.last() == Access::Read(RESP0, r)
        },
        Err(e) => e == MmcError::CommandTimeout && poll_exhausted(
            t.skip(2),
            CMD,
            CMD_START,
            budget,
        ),
    }
}

/// The register accesses `t` are those of the command transactions `x`, one
/// `command_run` segment per transaction, in order.
pub open spec fn commands_in(t: Seq<Access>, x: Seq<Txn>, budget: u32) -> bool
    decreases x.len(),
{
    if x.len() == 0 {
        t.len() == 0
    } else {
        exists|k: int|
            #![trigger t.subrange(0, k)]
            {
                &&& 0 <= k <= t.len()
                &&& commands_in(t.subrange(0, k), x.drop_last(), budget)
                &&& command_run(t.subrange(k, t.len() as int), x.last().cmd, x.last().arg, budget, x.last().res)
            }
    }
}

/// Set-up of a block transfer: status cleared, block size, byte count, then
/// the transfer command with outcome `res`.
pub open spec fn transfer_start_run(
    t: Seq<Access>,
    cmd: u32,
    arg: u32,
    budget: u32,
    res: Result<u32, MmcError>,
) -> bool {
    &&& t.len() >= 3
    &&& t[0] == Access::Write(RINTSTS, RINTSTS_CLEAR)
    &&& t[1] == Access::Write(BLKSIZ, BLOCK_SIZE as u32)
    &&& t[2] == Access::Write(BYTCNT, BLOCK_SIZE as u32)
    &&& command_run(t.skip(3), cmd, arg, budget, res)
}

/// Status bits the data FIFO is polled on: not empty to read, not full to write.
pub open spec fn fifo_wait_mask(read: bool) -> u32 {
    if read {
        STATUS_FIFO_EMPTY
    } else {
        STATUS_FIFO_FULL
    }
}

/// One data FIFO word: a poll of the status until the FIFO is ready, then
/// the word read from or written to the data port.
pub open spec fn fifo_step(s: Seq<Access>, w: u32, budget: u32, read: bool) -> bool {
    &&& s.len() >= 1
    &&& poll_succeeded(s.drop_last(), STATUS, fifo_wait_mask(read), budget)
    &&& s.last() == (if read {
        Access::Read(DATA, w)
    } else {
        Access::Write(DATA, w)
    })
}

/// The register accesses `t` move the FIFO words `words`, one `fifo_step`
/// segment per word, in order.
pub open spec fn fifo_run(t: Seq<Access>, words: Seq<u32>, budget: u32, read: bool) -> bool
    decreases words.len(),
{
    if words.len() == 0 {
        t.len() == 0
    } else {
        exists|k: int|
            #![trigger t.subrange(0, k)]
            {
                &&& 0 <= k <= t.len()
                &&& fifo_run(t.subrange(0, k), words.drop_last(), budget, read)
                &&& fifo_step(t.subrange(k, t.len() as int), words.last(), budget, read)
            }
    }
}

/// Outcome of a block transfer from the raw interrupt status read after it.
pub open spec fn data_status(s: u32) -> Result<(), MmcError> {
    if s & RINTSTS_DATA_CRC != 0 {
        Err(MmcError::DataCrc)
    } else if s & RINTSTS_DATA_TIMEOUT != 0 {
        Err(MmcError::CommandTimeout)
    } else {
        Ok(())
    }
}

/// A whole block transfer: set-up and command with outcome `cres`, then the
/// FIFO words `words`. A failed command ends it with `CommandTimeout`; a
/// FIFO that stays unready for `budget` reads ends it with `CommandTimeout`;
/// after the full block, a single read of the raw interrupt status decides
/// the outcome (`data_status`).
pub open spec fn transfer_run(
    t: Seq<Access>,
    cmd: u32,
    arg: u32,
    budget: u32,
    read: bool,
    cres: Result<u32, MmcError>,
    words: Seq<u32>,
    r: Result<(), MmcError>,
) -> bool {
    exists|k: int, m: int|
        #![trigger t.subrange(0, k), t.subrange(k, m)]
        {
            &&& 0 <= k <= m <= t.len()
            &&& transfer_start_run(t.subrange(0, k), cmd, arg, budget, cres)
            &&& fifo_run(t.subrange(k, m), words, budget, read)
            &&& if cres is Err {
                &&& m == t.len()
                &&& words.len() == 0
                &&& r == Err::<(), MmcError>(MmcError::CommandTimeout)
            } else if words.len() < BLOCK_WORDS {
                &&& r == Err::<(), MmcError>(MmcError::CommandTimeout)
                &&& poll_exhausted(t.skip(m), STATUS, fifo_wait_mask(read), budget)
            } else {
                &&& words.len() == BLOCK_WORDS
                &&& t.len() == m + 1
                &&& t[m] == Access::Read(RINTSTS, value_of(t[m]))
                &&& r == data_status(value_of(t[m]))
            }
        }
}

/// Operating condition response of a card that finished power-up.
pub open spec fn powered_up(ocr: u32) -> bool {
    ocr & OCR_POWER_UP_DONE != 0
}

/// Interface condition response that echoes the voltage and check pattern.
pub open spec fn echoes_if_cond(resp: u32) -> bool {
    resp & 0xFFF == IF_COND_ARG
}

/// Operating condition negotiation with `left` attempts remaining: each
/// attempt is the application command prefix followed by the operating
/// condition command; it ends at the first failed command (`InitFailed`), at
/// the first response with the power-up bit set (that response), or when no
/// attempt is left (`InitFailed`).
pub open spec fn negotiation(t: Seq<Txn>, left: nat, res: Result<u32, MmcError>) -> bool
    decreases left,
{
    if left == 0 {
        t.len() == 0 && res == Err::<u32, MmcError>(MmcError::InitFailed)
    } else {
        &&& t.len() >= 1
        &&& t[0].cmd == CMD55_APP_CMD && t[0].arg == 0
        &&& match t[0].res {
            Err(_) => t.len() == 1 && res == Err::<u32, MmcError>(MmcError::InitFailed),
            Ok(_) => {
                &&& t.len() >= 2
                &&& t[1].cmd == ACMD41_SD_SEND_OP_COND && t[1].arg == OP_COND_ARG
                &&& match t[1].res {
                    Err(_) => t.len() == 2 && res == Err::<u32, MmcError>(MmcError::InitFailed),
                    Ok(ocr) => if powered_up(ocr) {
                        t.len() == 2 && res == Ok::<u32, MmcError>(ocr)
                    } else {
                        negotiation(t.skip(2), (left - 1) as nat, res)
                    },
                }
            },
        }
    }
}

/// Card identification: go idle state (a timeout is `InitFailed`), interface
/// condition (no echoed pattern is `UnsupportedCard`), then the operating
/// condition negotiation with `budget` attempts.
pub open spec fn identification(t: Seq<Txn>, budget: u32, res: Result<u32, MmcError>) -> bool {
    &&& t.len() >= 1
    &&& t[0].cmd == CMD0_GO_IDLE_STATE && t[0].arg == 0
    &&& if t[0].res is Err {
        t.len() == 1 && res == Err::<u32, MmcError>(MmcError::InitFailed)
    } else {
        &&& t.len() >= 2
        &&& t[1].cmd == CMD8_SEND_IF_COND && t[1].arg == IF_COND_ARG
        &&& if t[1].res is Ok && echoes_if_cond(t[1].res->Ok_0) {
            negotiation(t.skip(2), budget as nat, res)
        } else {
            t.len() == 2 && res == Err::<u32, MmcError>(MmcError::UnsupportedCard)
        }
    }
}

/// The four bytes of a FIFO word, least significant first.
pub open spec fn word_bytes(w: u32) -> Seq<u8> {
    seq![(w & 0xFF) as u8, ((w >> 8u32) & 0xFF) as u8, ((w >> 16u32) & 0xFF) as u8, ((w >> 24u32) & 0xFF) as u8]
}

/// FIFO words laid out as bytes, each word least significant byte first.
pub open spec fn le_bytes(ws: Seq<u32>) -> Seq<u8>
    decreases ws.len(),
{
    if ws.len() == 0 {
        Seq::empty()
    } else {
        le_bytes(ws.drop_last()) + word_bytes(ws.last())
    }
}

/// The word whose bytes, least significant first, are the first four of `b`.
pub open spec fn le_word(b: Seq<u8>) -> u32 {
    (b[0] as int + 0x100 * b[1] as int + 0x1_0000 * b[2] as int + 0x100_0000 * b[3] as int) as u32
}

/// Bytes gathered into FIFO words, four at a time, least significant first.
pub open spec fn le_words(b: Seq<u8>) -> Seq<u32>
    decreases b.len(),
{
    if b.len() < 4 {
        Seq::empty()
    } else {
        le_words(b.subrange(0, b.len() - 4)).push(le_word(b.subrange(b.len() - 4, b.len() as int)))
    }
}

/// Identification fails only with `InitFailed` or `UnsupportedCard`.
pub proof fn lemma_identification_errors(t: Seq<Txn>, budget: u32, res: Result<u32, MmcError>)
    requires
        identification(t, budget, res),
        res is Err,
    ensures
        res == Err::<u32, MmcError>(MmcError::InitFailed) || res == Err::<u32, MmcError>(MmcError::UnsupportedCard),
{
    if t[0].res is Ok && t[1].res is Ok && echoes_if_cond(t[1].res->Ok_0) {
        lemma_negotiation_error(t.skip(2), budget as nat, res);
    }
}

/// Operating condition negotiation fails only with `InitFailed`.
pub proof fn lemma_negotiation_error(t: Seq<Txn>, left: nat, res: Result<u32, MmcError>)
    requires
        negotiation(t, left, res),
        res is Err,
    ensures
        res == Err::<u32, MmcError>(MmcError::InitFailed),
    decreases left,
{
    if left > 0 && t[0].res is Ok && t[1].res is Ok && !powered_up(t[1].res->Ok_0) {
        lemma_negotiation_error(t.skip(2), (left - 1) as nat, res);
    }
}

/// Splitting the part of `c` after `a` at an intermediate prefix `b`.
proof fn lemma_prefix_split<T>(a: Seq<T>, b: Seq<T>, c: Seq<T>)
    requires
        a.is_prefix_of(b),
        b.is_prefix_of(c),
    ensures
        a.is_prefix_of(c),
        c.skip(a.len() as int) == b.skip(a.len() as int) + c.skip(b.len() as int),
{
    assert(a =~= c.subrange(0, a.len() as int)) by {
        assert(a =~= b.subrange(0, a.len() as int));
        assert(b =~= c.subrange(0, b.len() as int));
    }
    assert(c.skip(a.len() as int) =~= b.skip(a.len() as int) + c.skip(b.len() as int)) by {
        assert(b =~= c.subrange(0, b.len() as int));
    }
}

/// Nothing done, no command sent.
proof fn lemma_commands_none(t: Seq<Access>, x: Seq<Txn>, budget: u32)
    ensures
        commands_in(t.skip(t.len() as int), x.skip(x.len() as int), budget),
        t.is_prefix_of(t),
        x.is_prefix_of(x),
{
    assert(t.skip(t.len() as int) =~= Seq::<Access>::empty());
    assert(x.skip(x.len() as int) =~= Seq::<Txn>::empty());
    assert(t =~= t.subrange(0, t.len() as int));
    assert(x =~= x.subrange(0, x.len() as int));
}

/// One more command transaction extends the record of commands.
proof fn lemma_commands_push(
    t0: Seq<Access>,
    t1: Seq<Access>,
    t2: Seq<Access>,
    x0: Seq<Txn>,
    x1: Seq<Txn>,
    txn: Txn,
    budget: u32,
)
    requires
        t0.is_prefix_of(t1),
        t1.is_prefix_of(t2),
        x0.is_prefix_of(x1),
        commands_in(t1.skip(t0.len() as int), x1.skip(x0.len() as int), budget),
        command_run(t2.skip(t1.len() as int), txn.cmd, txn.arg, budget, txn.res),
    ensures
        commands_in(t2.skip(t0.len() as int), x1.push(txn).skip(x0.len() as int), budget),
        x0.is_prefix_of(x1.push(txn)),
{
    lemma_prefix_split(t0, t1, t2);
    lemma_push_prefix(x1, txn);
    lemma_prefix_split(x0, x1, x1.push(txn));
    let t = t2.skip(t0.len() as int);
    let x = x1.push(txn).skip(x0.len() as int);
    let k = t1.len() - t0.len();
    assert(t.subrange(0, k) =~= t1.skip(t0.len() as int));
    assert(t.subrange(k, t.len() as int) =~= t2.skip(t1.len() as int));
    assert(x.drop_last() =~= x1.skip(x0.len() as int));
    assert(x.last() == txn);
    assert(x.len() > 0);
    assert(0 <= k <= t.len());
    assert(commands_in(t.subrange(0, k), x.drop_last(), budget));
    assert(command_run(t.subrange(k, t.len() as int), x.last().cmd, x.last().arg, budget, x.last().res));
    assert(commands_in(t, x, budget));
}

/// Two records of commands, one after the other, make one.
proof fn lemma_commands_concat(
    t0: Seq<Access>,
    t1: Seq<Access>,
    t2: Seq<Access>,
    x0: Seq<Txn>,
    x1: Seq<Txn>,
    x2: Seq<Txn>,
    budget: u32,
)
    requires
        t0.is_prefix_of(t1),
        t1.is_prefix_of(t2),
        x0.is_prefix_of(x1),
        x1.is_prefix_of(x2),
        commands_in(t1.skip(t0.len() as int), x1.skip(x0.len() as int), budget),
        commands_in(t2.skip(t1.len() as int), x2.skip(x1.len() as int), budget),
    ensures
        commands_in(t2.skip(t0.len() as int), x2.skip(x0.len() as int), budget),
    decreases x2.len(),
{
    let t = t2.skip(t1.len() as int);
    let x = x2.skip(x1.len() as int);
    if x.len() == 0 {
        assert(t2 =~= t1) by {
            assert(t1 =~= t2.subrange(0, t1.len() as int));
        }
        assert(x2 =~= x1) by {
            assert(x1 =~= x2.subrange(0, x1.len() as int));
        }
    } else {
        let k = choose|k: int|
            {
                &&& 0 <= k <= t.len()
                &&& commands_in(#[trigger] t.subrange(0, k), x.drop_last(), budget)
                &&& command_run(t.subrange(k, t.len() as int), x.last().cmd, x.last().arg, budget, x.last().res)
            };
        let tm = t2.subrange(0, t1.len() + k);
        let xm = x2.drop_last();
        assert(t1.is_prefix_of(tm)) by {
            assert(t1 =~= t2.subrange(0, t1.len() as int));
            assert(t1 =~= tm.subrange(0, t1.len() as int));
        }
        assert(tm.is_prefix_of(t2)) by {
            assert(tm =~= t2.subrange(0, tm.len() as int));
        }
        assert(x1.is_prefix_of(xm)) by {
            assert(x1 =~= x2.subrange(0, x1.len() as int));
            assert(x1 =~= xm.subrange(0, x1.len() as int));
        }
        assert(tm.skip(t1.len() as int) =~= t.subrange(0, k));
        assert(xm.skip(x1.len() as int) =~= x.drop_last());
        lemma_prefix_split(t0, t1, tm);
        lemma_prefix_split(x0, x1, xm);
        lemma_commands_concat(t0, t1, tm, x0, x1, xm, budget);
        assert(t2.skip(tm.len() as int) =~= t.subrange(k, t.len() as int));
        assert(x.last() == x2.last());
        lemma_commands_push(t0, tm, t2, x0, xm, x2.last(), budget);
        assert(xm.push(x2.last()) =~= x2);
    }
}

/// One more FIFO word extends the record of FIFO words.
proof fn lemma_fifo_push(
    t0: Seq<Access>,
    t1: Seq<Access>,
    t2: Seq<Access>,
    words: Seq<u32>,
    w: u32,
    budget: u32,
    read: bool,
)
    requires
        t0.is_prefix_of(t1),
        t1.is_prefix_of(t2),
        fifo_run(t1.skip(t0.len() as int), words, budget, read),
        fifo_step(t2.skip(t1.len() as int), w, budget, read),
    ensures
        fifo_run(t2.skip(t0.len() as int), words.push(w), budget, read),
        t0.is_prefix_of(t2),
{
    lemma_prefix_split(t0, t1, t2);
    let t = t2.skip(t0.len() as int);
    let x = words.push(w);
    let k = t1.len() - t0.len();
    assert(t.subrange(0, k) =~= t1.skip(t0.len() as int));
    assert(t.subrange(k, t.len() as int) =~= t2.skip(t1.len() as int));
    assert(x.drop_last() =~= words);
    assert(fifo_run(t.subrange(0, k), x.drop_last(), budget, read));
}

/// A round that found the card still powering up leaves the rest of the
/// negotiation to the remaining rounds.
proof fn lemma_negotiation_round(p: Seq<Txn>, pair: Seq<Txn>, left: nat, next: nat, total: nat)
    requires
        next + 1 == left,
        pair.len() == 2,
        pair[0].cmd == CMD55_APP_CMD && pair[0].arg == 0 && pair[0].res is Ok,
        pair[1].cmd == ACMD41_SD_SEND_OP_COND && pair[1].arg == OP_COND_ARG && pair[1].res is Ok,
        !powered_up(pair[1].res->Ok_0),
        forall|rest: Seq<Txn>, res: Result<u32, MmcError>|
            #[trigger] negotiation(rest, left, res) ==> negotiation(p + rest, total, res),
    ensures
        forall|rest: Seq<Txn>, res: Result<u32, MmcError>|
            #[trigger] negotiation(rest, next, res) ==> negotiation((p + pair) + rest, total, res),
{
    assert forall|rest: Seq<Txn>, res: Result<u32, MmcError>|
        #[trigger] negotiation(rest, next, res) implies negotiation((p + pair) + rest, total, res) by {
        let r2 = pair + rest;
        assert(r2.skip(2) =~= rest);
        assert(r2[0] == pair[0] && r2[1] == pair[1]);
        assert(negotiation(r2, left, res));
        assert(p + r2 =~= (p + pair) + rest);
    }
}

/// A sequence is a prefix of itself with one more element.
proof fn lemma_push_prefix<T>(a: Seq<T>, x: T)
    ensures
        a.is_prefix_of(a.push(x)),
        a.push(x).skip(a.len() as int) == seq![x],
{
    assert(a =~= a.push(x).subrange(0, a.len() as int));
    assert(a.push(x).skip(a.len() as int) =~= seq![x]);
}

/// A write of register `offset`.
pub open spec fn writes_to(a: Access, offset: usize) -> bool {
    a == Access::Write(offset, value_of(a))
}

/// A clock update handshake writes only the command register.
proof fn lemma_update_writes_only_cmd(u: Seq<Access>, budget: u32, offset: usize)
    requires
        clock_update_run(u, budget),
        offset != CMD,
    ensures
        forall|i: int| 0 <= i < u.len() ==> !writes_to(#[trigger] u[i], offset),
{
    assert forall|i: int| 0 <= i < u.len() implies !writes_to(#[trigger] u[i], offset) by {
        if i > 0 {
            let p = u.skip(1);
            assert(u[i] == p[i - 1]);
            if poll_exhausted(p, CMD, CMD_START, budget) || i - 1 < p.len() - 1 {
                assert(busy_read(p[i - 1], CMD, CMD_START));
            } else {
                assert(clear_read(p[i - 1], CMD, CMD_START));
            }
        }
    }
}

/// Programming the clock writes the divisor register exactly once, with
/// `floor(SOURCE_CLOCK / (2 * freq)) & 0xFF`.
pub proof fn lemma_clock_writes_divisor_once(t: Seq<Access>, freq: u32, budget: u32)
    requires
        clock_run(t, freq, budget),
    ensures
        exists|i: int|
            0 <= i < t.len() && #[trigger] t[i] == Access::Write(CLKDIV, divisor_spec(SOURCE_CLOCK, freq) as u32)
                && forall|j: int| 0 <= j < t.len() && writes_to(#[trigger] t[j], CLKDIV) ==> j == i,
{
    let (u1, u2) = choose|u1: Seq<Access>, u2: Seq<Access>|
        {
            &&& #[trigger] clock_update_run(u1, budget)
            &&& #[trigger] clock_update_run(u2, budget)
            &&& t == seq![Access::Write(CLKENA, 0)] + u1 + seq![
                Access::Write(CLKDIV, divisor_spec(SOURCE_CLOCK, freq) as u32),
                Access::Write(CLKENA, 1),
            ] + u2
        };
    lemma_update_writes_only_cmd(u1, budget, CLKDIV);
    lemma_update_writes_only_cmd(u2, budget, CLKDIV);
    let i = u1.len() as int + 1;
    assert(t[i] == Access::Write(CLKDIV, divisor_spec(SOURCE_CLOCK, freq) as u32));
    assert forall|j: int| 0 <= j < t.len() && writes_to(#[trigger] t[j], CLKDIV) implies j == i by {
        if 1 <= j < i {
            assert(t[j] == u1[j - 1]);
        } else if j >= i + 2 {
            assert(t[j] == u2[j - i - 2]);
        }
    }
}

/// Bring-up reports `CardNotPresent` exactly when the card detect read says
/// the slot is empty, and then that read is its only access: nothing is
/// written, the reset bits least of all.
pub proof fn lemma_absent_card_writes_nothing(t: Seq<Access>, budget: u32, res: Result<(), MmcError>)
    requires
        init_run(t, budget, res),
    ensures
        (res == Err::<(), MmcError>(MmcError::CardNotPresent)) == !present_spec(value_of(t[0])),
        res == Err::<(), MmcError>(MmcError::CardNotPresent) ==> t == seq![Access::Read(CDETECT, value_of(t[0]))],
        res == Err::<(), MmcError>(MmcError::CardNotPresent) ==> forall|i: int|
            0 <= i < t.len() ==> !(#[trigger] t[i] is Write),
{
    if res == Err::<(), MmcError>(MmcError::CardNotPresent) {
        assert(t =~= seq![Access::Read(CDETECT, value_of(t[0]))]);
    }
}

/// Bring-up reports `ResetTimeout` exactly when a card is present and the
/// reset write is followed by the full budget of reads, every one of them
/// still showing a reset bit set: never after fewer reads.
pub proof fn lemma_reset_timeout_after_full_budget(t: Seq<Access>, budget: u32, res: Result<(), MmcError>)
    requires
        init_run(t, budget, res),
    ensures
        (res == Err::<(), MmcError>(MmcError::ResetTimeout)) == {
            &&& present_spec(value_of(t[0]))
            &&& t.len() == budget + 2
            &&& t[1] == Access::Write(CTRL, CTRL_RESET_ALL)
            &&& forall|i: int| 2 <= i < t.len() ==> busy_read(#[trigger] t[i], CTRL, CTRL_RESET_ALL)
        },
{
    if present_spec(value_of(t[0])) {
        let (r, rest) = choose|r: Seq<Access>, rest: Seq<Access>|
            {
                &&& #[trigger] (r + rest) == t.skip(1)
                &&& if res is Ok {
                    reset_run(r, budget, true) && configure_run(rest, budget)
                } else {
                    res == Err::<(), MmcError>(MmcError::ResetTimeout) && reset_run(r, budget, false)
                        && rest.len() == 0
                }
            };
        assert(t =~= seq![t[0]] + t.skip(1));
        assert(t =~= seq![t[0]] + r + rest);
        assert forall|i: int| 1 <= i < r.len() implies t[i + 1] == #[trigger] r.skip(1)[i - 1] by {}
        if res is Ok {
            let p = r.skip(1);
            assert(clear_read(p.last(), CTRL, CTRL_RESET_ALL));
            assert(t[r.len() as int] == p.last());
            if t.len() == budget + 2 {
                assert(2 <= r.len() <= t.len() - 1);
                assert(!busy_read(t[r.len() as int], CTRL, CTRL_RESET_ALL));
            }
        } else {
            assert(rest.len() == 0);
            assert forall|i: int| 2 <= i < t.len() implies busy_read(#[trigger] t[i], CTRL, CTRL_RESET_ALL) by {
                assert(t[i] == r.skip(1)[i - 2]);
            }
        }
    }
}

/// When the first poll of the start bit already finds it clear, the command
/// succeeds at once with the value of the single response word read after it.
pub proof fn lemma_immediate_completion(
    t: Seq<Access>,
    cmd: u32,
    arg: u32,
    budget: u32,
    res: Result<u32, MmcError>,
)
    requires
        command_run(t, cmd, arg, budget, res),
        budget >= 1,
        t.len() >= 3,
        clear_read(t[2], CMD, CMD_START),
    ensures
        t.len() == 4,
        t[3] == Access::Read(RESP0, value_of(t[3])),
        res == Ok::<u32, MmcError>(value_of(t[3])),
{
    if res is Err {
        assert(t.skip(2)[0] == t[2]);
        assert(busy_read(t.skip(2)[0], CMD, CMD_START));
    } else {
        let p = t.subrange(2, t.len() - 1);
        assert(p[0] == t[2]);
        if p.len() > 1 {
            assert(busy_read(p[0], CMD, CMD_START));
        }
    }
}

/// Host controller driver over a register window `W`.
pub struct SdMmc<W: RegisterWindow> {
    window: W,
    budget: u32,
    trace: Ghost<Seq<Access>>,
    txns: Ghost<Seq<Txn>>,
    fifo_in: Ghost<Seq<u32>>,
    fifo_out: Ghost<Seq<u32>>,
}

impl<W: RegisterWindow> SdMmc<W> {
    /// The register window the driver owns.
    pub closed spec fn window_spec(&self) -> W {
        self.window
    }

    /// Every register access made so far, in order.
    pub closed spec fn trace(&self) -> Seq<Access> {
        self.trace@
    }

    /// Every command transaction made so far, in order.
    pub closed spec fn txns(&self) -> Seq<Txn> {
        self.txns@
    }

    /// Every word taken from the data FIFO so far, in order.
    pub closed spec fn fifo_in(&self) -> Seq<u32> {
        self.fifo_in@
    }

    /// Every word handed to the data FIFO so far, in order.
    pub closed spec fn fifo_out(&self) -> Seq<u32> {
        self.fifo_out@
    }

    /// Number of reads each polling loop may make before giving up.
    pub closed spec fn budget_spec(&self) -> u32 {
        self.budget
    }

    /// A driver with the default polling budget.
    pub fn new(window: W) -> (r: Self)
        ensures
            r.trace() == Seq::<Access>::empty(),
            r.txns() == Seq::<Txn>::empty(),
            r.fifo_in() == Seq::<u32>::empty(),
            r.fifo_out() == Seq::<u32>::empty(),
            r.budget_spec() == DEFAULT_BUDGET,
            r.window_spec() == window,
    {
        SdMmc { window, budget: DEFAULT_BUDGET, trace: Ghost(Seq::empty()), txns: Ghost(Seq::empty()),
            fifo_in: Ghost(Seq::empty()), fifo_out: Ghost(Seq::empty()) }
    }

    /// A driver whose polling loops read at most `budget` times.
    pub fn with_budget(window: W, budget: u32) -> (r: Self)
        ensures
            r.trace() == Seq::<Access>::empty(),
            r.txns() == Seq::<Txn>::empty(),
            r.fifo_in() == Seq::<u32>::empty(),
            r.fifo_out() == Seq::<u32>::empty(),
            r.budget_spec() == budget,
            r.window_spec() == window,
    {
        SdMmc { window, budget, trace: Ghost(Seq::empty()), txns: Ghost(Seq::empty()),
            fifo_in: Ghost(Seq::empty()), fifo_out: Ghost(Seq::empty()) }
    }

    /// The polling budget.
    pub fn budget(&self) -> (r: u32)
        ensures
            r == self.budget_spec(),
    {
        self.budget
    }

    /// The register window.
    pub fn window(&self) -> (r: &W)
        ensures
            *r == self.window_spec(),
    {
        &self.window
    }

    fn rd(&mut self, offset: usize) -> (r: u32)
        ensures
            final(self).trace() == old(self).trace().push(Access::Read(offset, r)),
            final(self).txns() == old(self).txns(),
            final(self).budget_spec() == old(self).budget_spec(),
            final(self).fifo_in() == old(self).fifo_in(),
            final(self).fifo_out() == old(self).fifo_out(),
    {
        let r = self.window.read(offset);
        self.trace = Ghost(self.trace@.push(Access::Read(offset, r)));
        r
    }

    fn wr(&mut self, offset: usize, value: u32)
        ensures
            final(self).trace() == old(self).trace().push(Access::Write(offset, value)),
            final(self).txns() == old(self).txns(),
            final(self).budget_spec() == old(self).budget_spec(),
            final(self).fifo_in() == old(self).fifo_in(),
            final(self).fifo_out() == old(self).fifo_out(),
    {
        self.window.write(offset, value);
        self.trace = Ghost(self.trace@.push(Access::Write(offset, value)));
    }

    /// Reads `offset` until every bit of `mask` is clear, at most `budget` times.
    fn poll_clear(&mut self, offset: usize, mask: u32) -> (ok: bool)
        ensures
            old(self).trace().is_prefix_of(final(self).trace()),
            final(self).txns() == old(self).txns(),
            final(self).budget_spec() == old(self).budget_spec(),
            final(self).fifo_in() == old(self).fifo_in(),
            final(self).fifo_out() == old(self).fifo_out(),
            ok ==> poll_succeeded(
                final(self).trace().skip(old(self).trace().len() as int),
                offset,
                mask,
                old(self).budget_spec(),
            ),
            !ok ==> poll_exhausted(
                final(self).trace().skip(old(self).trace().len() as int),
                offset,
                mask,
                old(self).budget_spec(),
            ),
    {
        let ghost t0 = self.trace@;
        let mut n: u32 = 0;
        while n < self.budget
            invariant
                n <= self.budget,
                self.budget == old(self).budget_spec(),
                self.txns@ == old(self).txns(),
                self.fifo_in@ == old(self).fifo_in(),
                self.fifo_out@ == old(self).fifo_out(),
                t0 == old(self).trace(),
                self.trace@.len() == t0.len() + n,
                t0.is_prefix_of(self.trace@),
                forall|i: int|
                    t0.len() <= i < self.trace@.len() ==> busy_read(#[trigger] self.trace@[i], offset, mask),
            decreases self.budget - n,
        {
            let v = self.rd(offset);
            if v & mask == 0 {
                proof {
                    let s = self.trace@.skip(t0.len() as int);
                    assert forall|i: int| 0 <= i < s.len() - 1 implies busy_read(#[trigger] s[i], offset, mask) by {
                        assert(s[i] == self.trace@[t0.len() + i]);
                    }
                    assert(s.last() == self.trace@.last());
                }
                return true;
            }
            n = n + 1;
        }
        proof {
            let s = self.trace@.skip(t0.len() as int);
            assert forall|i: int| 0 <= i < s.len() implies busy_read(#[trigger] s[i], offset, mask) by {
                assert(s[i] == self.trace@[t0.len() + i]);
            }
        }
        false
    }

    /// Resets controller, FIFO and DMA, and waits for the reset bits to clear.
    fn reset(&mut self) -> (r: Result<(), MmcError>)
        ensures
            old(self).trace().is_prefix_of(final(self).trace()),
            final(self).txns() == old(self).txns(),
            final(self).budget_spec() == old(self).budget_spec(),
            final(self).fifo_in() == old(self).fifo_in(),
            final(self).fifo_out() == old(self).fifo_out(),
            r is Ok ==> reset_run(final(self).trace().skip(old(self).trace().len() as int), old(self).budget_spec(), true),
            r is Err ==> r == Err::<(), MmcError>(MmcError::ResetTimeout) && reset_run(
                final(self).trace().skip(old(self).trace().len() as int),
                old(self).budget_spec(),
                false,
            ),
    {
        let ghost t0 = self.trace@;
        self.wr(CTRL, CTRL_RESET_ALL);
        let ghost t1 = self.trace@;
        let ok = self.poll_clear(CTRL, CTRL_RESET_ALL);
        proof {
            lemma_push_prefix(t0, Access::Write(CTRL, CTRL_RESET_ALL));
            lemma_prefix_split(t0, t1, self.trace@);
            let s = self.trace@.skip(t0.len() as int);
            assert(s.skip(1) =~= self.trace@.skip(t1.len() as int));
        }
        if ok {
            Ok(())
        } else {
            Err(MmcError::ResetTimeout)
        }
    }

    fn power_on(&mut self)
        ensures
            final(self).trace() == old(self).trace().push(Access::Write(PWREN, 1)),
            final(self).txns() == old(self).txns(),
            final(self).budget_spec() == old(self).budget_spec(),
            final(self).fifo_in() == old(self).fifo_in(),
            final(self).fifo_out() == old(self).fifo_out(),
    {
        self.wr(PWREN, 1);
    }

    /// Asks the controller to take up new clock settings; a handshake that is
    /// never acknowledged is tolerated.
    fn update_clock(&mut self)
        ensures
            old(self).trace().is_prefix_of(final(self).trace()),
            final(self).txns() == old(self).txns(),
            final(self).budget_spec() == old(self).budget_spec(),
            final(self).fifo_in() == old(self).fifo_in(),
            final(self).fifo_out() == old(self).fifo_out(),
            clock_update_run(final(self).trace().skip(old(self).trace().len() as int), old(self).budget_spec()),
    {
        let ghost t0 = self.trace@;
        self.wr(CMD, CMD_UPDATE_CLOCK);
        let ghost t1 = self.trace@;
        let _ = self.poll_clear(CMD, CMD_START);
        proof {
            lemma_push_prefix(t0, Access::Write(CMD, CMD_UPDATE_CLOCK));
            lemma_prefix_split(t0, t1, self.trace@);
            let s = self.trace@.skip(t0.len() as int);
            assert(s.skip(1) =~= self.trace@.skip(t1.len() as int));
        }
    }

    /// Programs the card clock for `freq` against the assumed source clock.
    pub fn set_clock(&mut self, freq: u32)
        ensures
            old(self).trace().is_prefix_of(final(self).trace()),
            final(self).txns() == old(self).txns(),
            final(self).budget_spec() == old(self).budget_spec(),
            final(self).fifo_in() == old(self).fifo_in(),
            final(self).fifo_out() == old(self).fifo_out(),
            clock_run(final(self).trace().skip(old(self).trace().len() as int), freq, old(self).budget_spec()),
    {
        let ghost t0 = self.trace@;
        self.wr(CLKENA, 0);
        let ghost t1 = self.trace@;
        self.update_clock();
        let ghost t2 = self.trace@;
        let div = clock_divisor(SOURCE_CLOCK, freq);
        self.wr(CLKDIV, div);
        let ghost t25 = self.trace@;
        self.wr(CLKENA, 1);
        let ghost t3 = self.trace@;
        self.update_clock();
        proof {
            let t4 = self.trace@;
            lemma_push_prefix(t0, Access::Write(CLKENA, 0));
            lemma_push_prefix(t2, Access::Write(CLKDIV, div));
            lemma_push_prefix(t25, Access::Write(CLKENA, 1));
            lemma_prefix_split(t0, t1, t2);
            lemma_prefix_split(t2, t25, t3);
            lemma_prefix_split(t0, t2, t3);
            lemma_prefix_split(t0, t3, t4);
            let u1 = t2.skip(t1.len() as int);
            let u2 = t4.skip(t3.len() as int);
            assert(t4.skip(t0.len() as int) =~= seq![Access::Write(CLKENA, 0)] + u1 + seq![
                Access::Write(CLKDIV, divisor_spec(SOURCE_CLOCK, freq) as u32),
                Access::Write(CLKENA, 1),
            ] + u2);
            assert(clock_update_run(u1, self.budget));
            assert(clock_update_run(u2, self.budget));
        }
    }

    /// Writes the bus type encoding of `width` (see `bus_width_spec`).
    pub fn set_bus_width(&mut self, width: u32)
        ensures
            final(self).trace() == old(self).trace().push(Access::Write(CTYPE, bus_width_spec(width))),
            final(self).txns() == old(self).txns(),
            final(self).budget_spec() == old(self).budget_spec(),
            final(self).fifo_in() == old(self).fifo_in(),
            final(self).fifo_out() == old(self).fifo_out(),
    {
        let v = bus_width_encoding(width);
        self.wr(CTYPE, v);
    }

    fn set_timeout(&mut self, timeout: u32)
        ensures
            final(self).trace() == old(self).trace().push(Access::Write(TMOUT, timeout)),
            final(self).txns() == old(self).txns(),
            final(self).budget_spec() == old(self).budget_spec(),
            final(self).fifo_in() == old(self).fifo_in(),
            final(self).fifo_out() == old(self).fifo_out(),
    {
        self.wr(TMOUT, timeout);
    }

    fn configure_fifo(&mut self)
        ensures
            final(self).trace() == old(self).trace().push(
                Access::Write(
                    FIFOTH,
                    fifo_threshold_spec(FIFO_RX_THRESHOLD, FIFO_TX_THRESHOLD, FIFO_BURST_CODE) as u32,
                ),
            ),
            final(self).txns() == old(self).txns(),
            final(self).budget_spec() == old(self).budget_spec(),
            final(self).fifo_in() == old(self).fifo_in(),
            final(self).fifo_out() == old(self).fifo_out(),
    {
        let v = fifo_threshold(FIFO_RX_THRESHOLD, FIFO_TX_THRESHOLD, FIFO_BURST_CODE);
        self.wr(FIFOTH, v);
    }

    /// Whether a card sits in the slot: bit 0 of the card detect register is clear.
    pub fn card_detect(&mut self) -> (r: bool)
        ensures
            final(self).trace() == old(self).trace().push(Access::Read(CDETECT, value_of(final(self).trace().last()))),
            r == present_spec(value_of(final(self).trace().last())),
            final(self).txns() == old(self).txns(),
            final(self).budget_spec() == old(self).budget_spec(),
            final(self).fifo_in() == old(self).fifo_in(),
            final(self).fifo_out() == old(self).fifo_out(),
    {
        let v = self.rd(CDETECT);
        v & 1 == 0
    }

    /// Brings the controller from power-off to ready-to-command: card
    /// presence, reset, power, identification clock, 1-bit bus, largest
    /// timeout, FIFO thresholds.
    ///
    /// Fails with `CardNotPresent` after the single card detect read when the
    /// slot is empty, and with `ResetTimeout` when the reset bits are still set
    /// after `budget` reads; succeeds otherwise.
    pub fn init(&mut self) -> (r: Result<(), MmcError>)
        ensures
            old(self).trace().is_prefix_of(final(self).trace()),
            init_run(final(self).trace().skip(old(self).trace().len() as int), old(self).budget_spec(), r),
            final(self).txns() == old(self).txns(),
            final(self).budget_spec() == old(self).budget_spec(),
            final(self).fifo_in() == old(self).fifo_in(),
            final(self).fifo_out() == old(self).fifo_out(),
    {
        let ghost t0 = self.trace@;
        let ghost b = self.budget;
        let present = self.card_detect();
        let ghost t1 = self.trace@;
        proof {
            lemma_push_prefix(t0, t1.last());
            assert(t1.skip(t0.len() as int)[0] == t1.last());
        }
        if !present {
            return Err(MmcError::CardNotPresent);
        }
        let rs = self.reset();
        let ghost t2 = self.trace@;
        proof {
            lemma_prefix_split(t0, t1, t2);
            assert(t2.skip(t0.len() as int)[0] == t1.last());
        }
        if rs.is_err() {
            proof {
                let r = t2.skip(t1.len() as int);
                let rest = Seq::<Access>::empty();
                assert(t2.skip(t0.len() as int).skip(1) =~= r + rest);
                assert(reset_run(r, b, false));
            }
            return Err(MmcError::ResetTimeout);
        }
        self.power_on();
        let ghost t3 = self.trace@;
        self.set_clock(IDENT_FREQ);
        let ghost t4 = self.trace@;
        self.set_bus_width(1);
        self.set_timeout(MAX_TIMEOUT);
        self.configure_fifo();
        proof {
            let t5 = self.trace@;
            let r = t2.skip(t1.len() as int);
            let c = t4.skip(t3.len() as int);
            lemma_push_prefix(t2, Access::Write(PWREN, 1));
            lemma_prefix_split(t2, t3, t4);
            assert(t4.is_prefix_of(t5)) by {
                assert(t4 =~= t5.subrange(0, t4.len() as int));
            }
            lemma_prefix_split(t2, t4, t5);
            lemma_prefix_split(t0, t2, t5);
            let rest = t5.skip(t2.len() as int);
            assert(rest =~= seq![Access::Write(PWREN, 1)] + c + seq![
                Access::Write(CTYPE, bus_width_spec(1)),
                Access::Write(TMOUT, MAX_TIMEOUT),
                Access::Write(
                    FIFOTH,
                    fifo_threshold_spec(FIFO_RX_THRESHOLD, FIFO_TX_THRESHOLD, FIFO_BURST_CODE) as u32,
                ),
            ]);
            assert(clock_run(c, IDENT_FREQ, b));
            assert(configure_run(rest, b));
            lemma_prefix_split(t0, t1, t2);
            assert(t5.skip(t0.len() as int).skip(1) =~= r + rest);
            assert(reset_run(r, b, true));
            assert(t5.skip(t0.len() as int)[0] == t1.last());
        }
        Ok(())
    }

    /// Issues command `cmd` with argument `arg` and returns the first response
    /// word, or `CommandTimeout` when the start bit is still set after
    /// `budget` reads. Each call is one transaction in `txns`.
    pub fn send_command(&mut self, cmd: u32, arg: u32) -> (r: Result<u32, MmcError>)
        ensures
            old(self).trace().is_prefix_of(final(self).trace()),
            command_run(final(self).trace().skip(old(self).trace().len() as int), cmd, arg, old(self).budget_spec(), r),
            final(self).txns() == old(self).txns().push(Txn { cmd, arg, res: r }),
            final(self).budget_spec() == old(self).budget_spec(),
            final(self).fifo_in() == old(self).fifo_in(),
            final(self).fifo_out() == old(self).fifo_out(),
    {
        let ghost t0 = self.trace@;
        self.wr(CMDARG, arg);
        let ghost t05 = self.trace@;
        self.wr(CMD, CMD_START | cmd);
        let ghost t1 = self.trace@;
        let ok = self.poll_clear(CMD, CMD_START);
        let ghost t2 = self.trace@;
        proof {
            lemma_push_prefix(t0, Access::Write(CMDARG, arg));
            lemma_push_prefix(t05, Access::Write(CMD, CMD_START | cmd));
            lemma_prefix_split(t0, t05, t1);
            lemma_prefix_split(t0, t1, t2);
        }
        let r = if ok {
            let v = self.rd(RESP0);
            proof {
                lemma_push_prefix(t2, Access::Read(RESP0, v));
                lemma_prefix_split(t0, t2, self.trace@);
                let s = self.trace@.skip(t0.len() as int);
                assert(s.subrange(2, s.len() - 1) =~= t2.skip(t1.len() as int));
            }
            Ok(v)
        } else {
            proof {
                let s = self.trace@.skip(t0.len() as int);
                assert(s.skip(2) =~= t2.skip(t1.len() as int));
            }
            Err(MmcError::CommandTimeout)
        };
        proof {
            let s = self.trace@.skip(t0.len() as int);
            assert(s[0] == t1.skip(t0.len() as int)[0]);
            assert(s[1] == t1.skip(t0.len() as int)[1]);
        }
        self.txns = Ghost(self.txns@.push(Txn { cmd, arg, res: r }));
        r
    }

    /// Operating condition negotiation: at most `left` rounds of the
    /// application command prefix and the operating condition command.
    fn negotiate(&mut self, left: u32) -> (r: Result<u32, MmcError>)
        ensures
            old(self).txns().is_prefix_of(final(self).txns()),
            negotiation(final(self).txns().skip(old(self).txns().len() as int), left as nat, r),
            old(self).trace().is_prefix_of(final(self).trace()),
            commands_in(
                final(self).trace().skip(old(self).trace().len() as int),
                final(self).txns().skip(old(self).txns().len() as int),
                old(self).budget_spec(),
            ),
            final(self).budget_spec() == old(self).budget_spec(),
            final(self).fifo_in() == old(self).fifo_in(),
            final(self).fifo_out() == old(self).fifo_out(),
    {
        let ghost x0 = self.txns@;
        let ghost t0 = self.trace@;
        proof {
            lemma_commands_none(t0, x0, self.budget);
            assert forall|rest: Seq<Txn>, res: Result<u32, MmcError>|
                #[trigger] negotiation(rest, left as nat, res) implies negotiation(
                x0.skip(x0.len() as int) + rest,
                left as nat,
                res,
            ) by {
                assert(x0.skip(x0.len() as int) + rest =~= rest);
            }
        }
        let mut round: u32 = 0;
        while round < left
            invariant
                round <= left,
                x0 == old(self).txns(),
                x0.is_prefix_of(self.txns@),
                t0 == old(self).trace(),
                t0.is_prefix_of(self.trace@),
                commands_in(self.trace@.skip(t0.len() as int), self.txns@.skip(x0.len() as int), self.budget),
                self.budget == old(self).budget_spec(),
                self.fifo_in@ == old(self).fifo_in(),
                self.fifo_out@ == old(self).fifo_out(),
                forall|rest: Seq<Txn>, res: Result<u32, MmcError>|
                    #[trigger] negotiation(rest, (left - round) as nat, res) ==> negotiation(
                        self.txns@.skip(x0.len() as int) + rest,
                        left as nat,
                        res,
                    ),
            decreases left - round,
        {
            let ghost xa = self.txns@;
            let ghost ta = self.trace@;
            let prefix = self.send_command(CMD55_APP_CMD, 0);
            let ghost x1 = self.txns@;
            let ghost tb = self.trace@;
            proof {
                lemma_commands_push(t0, ta, tb, x0, xa, x1.last(), self.budget);
                lemma_push_prefix(xa, x1.last());
                lemma_prefix_split(x0, xa, x1);
            }
            if prefix.is_err() {
                proof {
                    let rest = seq![x1.last()];
                    assert(negotiation(rest, (left - round) as nat, Err(MmcError::InitFailed)));
                    assert(xa.skip(x0.len() as int) + rest =~= x1.skip(x0.len() as int));
                }
                return Err(MmcError::InitFailed);
            }
            let op = self.send_command(ACMD41_SD_SEND_OP_COND, OP_COND_ARG);
            let ghost x2 = self.txns@;
            proof {
                lemma_commands_push(t0, tb, self.trace@, x0, x1, x2.last(), self.budget);
                lemma_push_prefix(x1, x2.last());
                lemma_prefix_split(x0, x1, x2);
                lemma_prefix_split(xa, x1, x2);
            }
            let ghost pair = seq![x1.last(), x2.last()];
            proof {
                assert(xa.skip(x0.len() as int) + pair =~= x2.skip(x0.len() as int));
            }
            match op {
                Err(_) => {
                    proof {
                        assert(negotiation(pair, (left - round) as nat, Err(MmcError::InitFailed)));
                    }
                    return Err(MmcError::InitFailed);
                },
                Ok(ocr) => {
                    if ocr & OCR_POWER_UP_DONE != 0 {
                        proof {
                            assert(negotiation(pair, (left - round) as nat, Ok(ocr)));
                        }
                        return Ok(ocr);
                    }
                },
            }
            round = round + 1;
            proof {
                assert(pair[1] == x2.last());
                lemma_negotiation_round(xa.skip(x0.len() as int), pair, (left - round + 1) as nat, (left - round) as nat, left as nat);
                assert(xa.skip(x0.len() as int) + pair =~= x2.skip(x0.len() as int));
            }
        }
        proof {
            let e = Err::<u32, MmcError>(MmcError::InitFailed);
            assert(negotiation(Seq::<Txn>::empty(), (left - round) as nat, e));
            assert(self.txns@.skip(x0.len() as int) + Seq::<Txn>::empty() =~= self.txns@.skip(x0.len() as int));
        }
        Err(MmcError::InitFailed)
    }

    /// SD card identification handshake: go idle state, interface condition,
    /// then up to `budget` rounds of the application command prefix and the
    /// operating condition command, until the card reports power-up done.
    /// Returns the final operating condition response.
    pub fn identify(&mut self) -> (r: Result<u32, MmcError>)
        ensures
            old(self).txns().is_prefix_of(final(self).txns()),
            identification(final(self).txns().skip(old(self).txns().len() as int), old(self).budget_spec(), r),
            old(self).trace().is_prefix_of(final(self).trace()),
            commands_in(
                final(self).trace().skip(old(self).trace().len() as int),
                final(self).txns().skip(old(self).txns().len() as int),
                old(self).budget_spec(),
            ),
            final(self).budget_spec() == old(self).budget_spec(),
            final(self).fifo_in() == old(self).fifo_in(),
            final(self).fifo_out() == old(self).fifo_out(),
    {
        let ghost x0 = self.txns@;
        let ghost t0 = self.trace@;
        proof {
            lemma_commands_none(t0, x0, self.budget);
        }
        let idle = self.send_command(CMD0_GO_IDLE_STATE, 0);
        let ghost x1 = self.txns@;
        let ghost t1 = self.trace@;
        proof {
            lemma_push_prefix(x0, x1.last());
            lemma_commands_push(t0, t0, t1, x0, x0, x1.last(), self.budget);
            assert(x0.push(x1.last()) =~= x1);
        }
        if idle.is_err() {
            return Err(MmcError::InitFailed);
        }
        let cond = self.send_command(CMD8_SEND_IF_COND, IF_COND_ARG);
        let ghost x2 = self.txns@;
        let ghost t2 = self.trace@;
        proof {
            lemma_commands_push(t0, t1, t2, x0, x1, x2.last(), self.budget);
            assert(x1.push(x2.last()) =~= x2);
            lemma_push_prefix(x1, x2.last());
            lemma_prefix_split(x0, x1, x2);
            assert(x2.skip(x0.len() as int) =~= seq![x1.last(), x2.last()]);
        }
        match cond {
            Ok(v) => {
                if v & 0xFFF != IF_COND_ARG {
                    return Err(MmcError::UnsupportedCard);
                }
            },
            Err(_) => {
                return Err(MmcError::UnsupportedCard);
            },
        }
        let b = self.budget;
        let r = self.negotiate(b);
        proof {
            let x3 = self.txns@;
            lemma_prefix_split(x0, x2, x3);
            assert(x3.skip(x0.len() as int).skip(2) =~= x3.skip(x2.len() as int));
            lemma_commands_concat(t0, t2, self.trace@, x0, x2, x3, self.budget);
            lemma_prefix_split(t0, t2, self.trace@);
        }
        r
    }

    fn read_fifo(&mut self) -> (r: u32)
        ensures
            final(self).trace() == old(self).trace().push(Access::Read(DATA, r)),
            final(self).fifo_in() == old(self).fifo_in().push(r),
            final(self).fifo_out() == old(self).fifo_out(),
            final(self).txns() == old(self).txns(),
            final(self).budget_spec() == old(self).budget_spec(),
    {
        let r = self.rd(DATA);
        self.fifo_in = Ghost(self.fifo_in@.push(r));
        r
    }

    fn write_fifo(&mut self, value: u32)
        ensures
            final(self).trace() == old(self).trace().push(Access::Write(DATA, value)),
            final(self).fifo_out() == old(self).fifo_out().push(value),
            final(self).fifo_in() == old(self).fifo_in(),
            final(self).txns() == old(self).txns(),
            final(self).budget_spec() == old(self).budget_spec(),
    {
        self.wr(DATA, value);
        self.fifo_out = Ghost(self.fifo_out@.push(value));
    }

    fn start_transfer(&mut self, cmd: u32, block_addr: u32) -> (r: Result<u32, MmcError>)
        ensures
            old(self).trace().is_prefix_of(final(self).trace()),
            transfer_start_run(final(self).trace().skip(old(self).trace().len() as int), cmd, block_addr, old(self).budget_spec(), r),
            final(self).txns() == old(self).txns().push(Txn { cmd, arg: block_addr, res: r }),
            final(self).budget_spec() == old(self).budget_spec(),
            final(self).fifo_in() == old(self).fifo_in(),
            final(self).fifo_out() == old(self).fifo_out(),
    {
        let ghost t0 = self.trace@;
        self.wr(RINTSTS, RINTSTS_CLEAR);
        let ghost ta = self.trace@;
        self.wr(BLKSIZ, BLOCK_SIZE as u32);
        let ghost t1 = self.trace@;
        self.wr(BYTCNT, BLOCK_SIZE as u32);
        let ghost t2 = self.trace@;
        let r = self.send_command(cmd, block_addr);
        proof {
            lemma_push_prefix(t0, Access::Write(RINTSTS, RINTSTS_CLEAR));
            lemma_push_prefix(ta, Access::Write(BLKSIZ, BLOCK_SIZE as u32));
            lemma_push_prefix(t1, Access::Write(BYTCNT, BLOCK_SIZE as u32));
            lemma_prefix_split(t0, ta, t1);
            lemma_prefix_split(t0, t1, t2);
            lemma_prefix_split(t0, t2, self.trace@);
            let t = self.trace@.skip(t0.len() as int);
            assert(t2.skip(t0.len() as int) =~= seq![
                Access::Write(RINTSTS, RINTSTS_CLEAR),
                Access::Write(BLKSIZ, BLOCK_SIZE as u32),
                Access::Write(BYTCNT, BLOCK_SIZE as u32),
            ]);
            assert(t.skip(3) =~= self.trace@.skip(t2.len() as int));
            assert(t[0] == t2.skip(t0.len() as int)[0]);
            assert(t[1] == t2.skip(t0.len() as int)[1]);
            assert(t[2] == t2.skip(t0.len() as int)[2]);
        }
        r
    }

    /// Reads the raw interrupt status once a block has moved and turns it
    /// into the transfer's outcome.
    fn finish_transfer(&mut self) -> (r: Result<(), MmcError>)
        ensures
            final(self).trace() == old(self).trace().push(Access::Read(RINTSTS, value_of(final(self).trace().last()))),
            r == data_status(value_of(final(self).trace().last())),
            final(self).txns() == old(self).txns(),
            final(self).budget_spec() == old(self).budget_spec(),
            final(self).fifo_in() == old(self).fifo_in(),
            final(self).fifo_out() == old(self).fifo_out(),
    {
        let s = self.rd(RINTSTS);
        if s & RINTSTS_DATA_CRC != 0 {
            Err(MmcError::DataCrc)
        } else if s & RINTSTS_DATA_TIMEOUT != 0 {
            Err(MmcError::CommandTimeout)
        } else {
            Ok(())
        }
    }

    /// Reads storage block `block_addr` into the first `BLOCK_SIZE` bytes of
    /// `buffer`: status cleared, block size and byte count set, the read
    /// command issued, then the block's words taken from the data FIFO, each
    /// once the FIFO is not empty, and stored least significant byte first;
    /// finally the raw interrupt status is read.
    ///
    /// Fails with `CommandTimeout` when the command times out, when the FIFO
    /// stays empty for `budget` reads, or when the controller reports a data
    /// timeout, and with `DataCrc` when it reports a data CRC error
    /// (`transfer_run`). On success the first `BLOCK_SIZE` bytes of `buffer`
    /// hold exactly the words read from the data port; bytes after them are
    /// never touched.
    #[verifier::rlimit(50)]
    pub fn read_block(&mut self, block_addr: u32, buffer: &mut [u8]) -> (r: Result<(), MmcError>)
        requires
            old(buffer)@.len() >= BLOCK_SIZE,
        ensures
            final(buffer)@.len() == old(buffer)@.len(),
            final(buffer)@.skip(BLOCK_SIZE as int) == old(buffer)@.skip(BLOCK_SIZE as int),
            old(self).trace().is_prefix_of(final(self).trace()),
            final(self).txns() == old(self).txns().push(
                Txn { cmd: READ_FLAGS | CMD17_READ_SINGLE_BLOCK, arg: block_addr, res: final(self).txns().last().res },
            ),
            final(self).budget_spec() == old(self).budget_spec(),
            final(self).fifo_out() == old(self).fifo_out(),
            old(self).fifo_in().is_prefix_of(final(self).fifo_in()),
            transfer_run(
                final(self).trace().skip(old(self).trace().len() as int),
                READ_FLAGS | CMD17_READ_SINGLE_BLOCK,
                block_addr,
                old(self).budget_spec(),
                true,
                final(self).txns().last().res,
                final(self).fifo_in().skip(old(self).fifo_in().len() as int),
                r,
            ),
            r is Ok ==> final(buffer)@.subrange(0, BLOCK_SIZE as int) == le_bytes(
                final(self).fifo_in().skip(old(self).fifo_in().len() as int),
            ),
    {
        let ghost t0 = self.trace@;
        let ghost x0 = self.txns@;
        let ghost in0 = self.fifo_in@;
        let ghost b0 = buffer@;
        let ghost b = self.budget;
        let started = self.start_transfer(READ_FLAGS | CMD17_READ_SINGLE_BLOCK, block_addr);
        let ghost tk = self.trace@;
        let ghost cres = started;
        proof {
            assert(self.fifo_in@.skip(in0.len() as int) =~= Seq::<u32>::empty());
            assert(in0 =~= in0.subrange(0, in0.len() as int));
            assert(tk.skip(tk.len() as int) =~= Seq::<Access>::empty());
            assert(tk =~= tk.subrange(0, tk.len() as int));
        }
        if started.is_err() {
            proof {
                let t = tk.skip(t0.len() as int);
                let k = t.len() as int;
                assert(t.subrange(0, k) =~= t);
                assert(t.subrange(k, k) =~= Seq::<Access>::empty());
                assert(fifo_run(t.subrange(k, k), Seq::<u32>::empty(), b, true));
            }
            return Err(MmcError::CommandTimeout);
        }
        let mut i: usize = 0;
        while i < BLOCK_WORDS
            invariant
                buffer@.len() == b0.len(),
                b0 == old(buffer)@,
                buffer@.skip(BLOCK_SIZE as int) == b0.skip(BLOCK_SIZE as int),
                b0.len() >= BLOCK_SIZE,
                i <= BLOCK_WORDS,
                t0 == old(self).trace(),
                t0.is_prefix_of(tk),
                tk.is_prefix_of(self.trace@),
                transfer_start_run(tk.skip(t0.len() as int), READ_FLAGS | CMD17_READ_SINGLE_BLOCK, block_addr, b, cres),
                cres is Ok,
                self.txns@ == x0.push(Txn { cmd: READ_FLAGS | CMD17_READ_SINGLE_BLOCK, arg: block_addr, res: cres }),
                x0 == old(self).txns(),
                b == old(self).budget_spec(),
                self.budget == b,
                self.fifo_out@ == old(self).fifo_out(),
                in0 == old(self).fifo_in(),
                in0.is_prefix_of(self.fifo_in@),
                self.fifo_in@.len() == in0.len() + i,
                fifo_run(self.trace@.skip(tk.len() as int), self.fifo_in@.skip(in0.len() as int), b, true),
                buffer@.subrange(0, 4 * i as int) == le_bytes(self.fifo_in@.skip(in0.len() as int)),
            decreases BLOCK_WORDS - i,
        {
            let ghost ta = self.trace@;
            let ready = self.poll_clear(STATUS, STATUS_FIFO_EMPTY);
            let ghost tb = self.trace@;
            proof {
                lemma_prefix_split(tk, ta, tb);
                lemma_prefix_split(t0, tk, tb);
            }
            if !ready {
                proof {
                    let t = tb.skip(t0.len() as int);
                    let k = tk.len() - t0.len();
                    let m = ta.len() - t0.len();
                    lemma_prefix_split(t0, tk, ta);
                    assert(t.subrange(0, k) =~= tk.skip(t0.len() as int));
                    assert(t.subrange(k, m) =~= ta.skip(tk.len() as int));
                    assert(t.skip(m) =~= tb.skip(ta.len() as int));
                }
                return Err(MmcError::CommandTimeout);
            }
            let ghost fb = self.fifo_in@;
            let ghost bb = buffer@;
            let v = self.read_fifo();
            buffer[4 * i] = (v & 0xFF) as u8;
            buffer[4 * i + 1] = ((v >> 8) & 0xFF) as u8;
            buffer[4 * i + 2] = ((v >> 16) & 0xFF) as u8;
            buffer[4 * i + 3] = ((v >> 24) & 0xFF) as u8;
            proof {
                let tc = self.trace@;
                lemma_push_prefix(tb, Access::Read(DATA, v));
                lemma_prefix_split(ta, tb, tc);
                assert(tc.skip(ta.len() as int).drop_last() =~= tb.skip(ta.len() as int));
                assert(fifo_step(tc.skip(ta.len() as int), v, b, true));
                lemma_fifo_push(tk, ta, tc, fb.skip(in0.len() as int), v, b, true);
                lemma_prefix_split(t0, tk, tc);
                lemma_push_prefix(fb, v);
                lemma_prefix_split(in0, fb, self.fifo_in@);
                let ws = self.fifo_in@.skip(in0.len() as int);
                assert(ws =~= fb.skip(in0.len() as int).push(v));
                assert(ws.drop_last() =~= fb.skip(in0.len() as int));
                assert(buffer@.subrange(0, 4 * i + 4) =~= bb.subrange(0, 4 * i as int) + word_bytes(v));
                assert(buffer@.skip(BLOCK_SIZE as int) =~= bb.skip(BLOCK_SIZE as int));
            }
            i = i + 1;
        }
        let ghost tm = self.trace@;
        let r = self.finish_transfer();
        proof {
            let tf = self.trace@;
            lemma_push_prefix(tm, tf.last());
            lemma_prefix_split(t0, tm, tf);
            lemma_prefix_split(t0, tk, tm);
            let t = tf.skip(t0.len() as int);
            let k = tk.len() - t0.len();
            let m = tm.len() - t0.len();
            assert(t.subrange(0, k) =~= tk.skip(t0.len() as int));
            assert(t.subrange(k, m) =~= tm.skip(tk.len() as int));
            assert(t[m] == tf.last());
        }
        r
    }

    /// Writes the first `BLOCK_SIZE` bytes of `buffer` to storage block
    /// `block_addr`: status cleared, block size and byte count set, the write
    /// command issued, then the bytes handed to the data FIFO four at a time,
    /// least significant first, each word once the FIFO is not full; finally
    /// the raw interrupt status is read.
    ///
    /// Fails with `CommandTimeout` when the command times out, when the FIFO
    /// stays full for `budget` reads, or when the controller reports a data
    /// timeout, and with `DataCrc` when it reports a data CRC error
    /// (`transfer_run`). On success the words written to the data port are
    /// exactly those of the block.
    #[verifier::rlimit(50)]
    pub fn write_block(&mut self, block_addr: u32, buffer: &[u8]) -> (r: Result<(), MmcError>)
        requires
            buffer@.len() >= BLOCK_SIZE,
        ensures
            old(self).trace().is_prefix_of(final(self).trace()),
            final(self).txns() == old(self).txns().push(
                Txn { cmd: WRITE_FLAGS | CMD24_WRITE_BLOCK, arg: block_addr, res: final(self).txns().last().res },
            ),
            final(self).budget_spec() == old(self).budget_spec(),
            final(self).fifo_in() == old(self).fifo_in(),
            old(self).fifo_out().is_prefix_of(final(self).fifo_out()),
            transfer_run(
                final(self).trace().skip(old(self).trace().len() as int),
                WRITE_FLAGS | CMD24_WRITE_BLOCK,
                block_addr,
                old(self).budget_spec(),
                false,
                final(self).txns().last().res,
                final(self).fifo_out().skip(old(self).fifo_out().len() as int),
                r,
            ),
            r is Ok ==> final(self).fifo_out().skip(old(self).fifo_out().len() as int) == le_words(
                buffer@.subrange(0, BLOCK_SIZE as int),
            ),
    {
        let ghost t0 = self.trace@;
        let ghost x0 = self.txns@;
        let ghost out0 = self.fifo_out@;
        let ghost b = self.budget;
        let started = self.start_transfer(WRITE_FLAGS | CMD24_WRITE_BLOCK, block_addr);
        let ghost tk = self.trace@;
        let ghost cres = started;
        proof {
            assert(self.fifo_out@.skip(out0.len() as int) =~= Seq::<u32>::empty());
            assert(out0 =~= out0.subrange(0, out0.len() as int));
            assert(tk.skip(tk.len() as int) =~= Seq::<Access>::empty());
            assert(tk =~= tk.subrange(0, tk.len() as int));
            assert(buffer@.subrange(0, 0) =~= Seq::<u8>::empty());
        }
        if started.is_err() {
            proof {
                let t = tk.skip(t0.len() as int);
                let k = t.len() as int;
                assert(t.subrange(0, k) =~= t);
                assert(t.subrange(k, k) =~= Seq::<Access>::empty());
                assert(fifo_run(t.subrange(k, k), Seq::<u32>::empty(), b, false));
            }
            return Err(MmcError::CommandTimeout);
        }
        let mut i: usize = 0;
        while i < BLOCK_WORDS
            invariant
                buffer@.len() >= BLOCK_SIZE,
                i <= BLOCK_WORDS,
                t0 == old(self).trace(),
                t0.is_prefix_of(tk),
                tk.is_prefix_of(self.trace@),
                transfer_start_run(tk.skip(t0.len() as int), WRITE_FLAGS | CMD24_WRITE_BLOCK, block_addr, b, cres),
                cres is Ok,
                self.txns@ == x0.push(Txn { cmd: WRITE_FLAGS | CMD24_WRITE_BLOCK, arg: block_addr, res: cres }),
                x0 == old(self).txns(),
                b == old(self).budget_spec(),
                self.budget == b,
                self.fifo_in@ == old(self).fifo_in(),
                out0 == old(self).fifo_out(),
                out0.is_prefix_of(self.fifo_out@),
                self.fifo_out@.len() == out0.len() + i,
                fifo_run(self.trace@.skip(tk.len() as int), self.fifo_out@.skip(out0.len() as int), b, false),
                self.fifo_out@.skip(out0.len() as int) == le_words(buffer@.subrange(0, 4 * i as int)),
            decreases BLOCK_WORDS - i,
        {
            let ghost ta = self.trace@;
            let ready = self.poll_clear(STATUS, STATUS_FIFO_FULL);
            let ghost tb = self.trace@;
            proof {
                lemma_prefix_split(tk, ta, tb);
                lemma_prefix_split(t0, tk, tb);
            }
            if !ready {
                proof {
                    let t = tb.skip(t0.len() as int);
                    let k = tk.len() - t0.len();
                    let m = ta.len() - t0.len();
                    lemma_prefix_split(t0, tk, ta);
                    assert(t.subrange(0, k) =~= tk.skip(t0.len() as int));
                    assert(t.subrange(k, m) =~= ta.skip(tk.len() as int));
                    assert(t.skip(m) =~= tb.skip(ta.len() as int));
                }
                return Err(MmcError::CommandTimeout);
            }
            let b0 = buffer[4 * i] as u32;
            let b1 = buffer[4 * i + 1] as u32;
            let b2 = buffer[4 * i + 2] as u32;
            let b3 = buffer[4 * i + 3] as u32;
            assert(b0 + 0x100 * b1 + 0x1_0000 * b2 + 0x100_0000 * b3 <= 0xFFFF_FFFF) by (nonlinear_arith)
                requires
                    b0 < 0x100,
                    b1 < 0x100,
                    b2 < 0x100,
                    b3 < 0x100,
            ;
            let w: u32 = b0 + 0x100 * b1 + 0x1_0000 * b2 + 0x100_0000 * b3;
            let ghost fb = self.fifo_out@;
            self.write_fifo(w);
            proof {
                let tc = self.trace@;
                lemma_push_prefix(tb, Access::Write(DATA, w));
                lemma_prefix_split(ta, tb, tc);
                assert(tc.skip(ta.len() as int).drop_last() =~= tb.skip(ta.len() as int));
                assert(fifo_step(tc.skip(ta.len() as int), w, b, false));
                lemma_fifo_push(tk, ta, tc, fb.skip(out0.len() as int), w, b, false);
                lemma_prefix_split(t0, tk, tc);
                lemma_push_prefix(fb, w);
                lemma_prefix_split(out0, fb, self.fifo_out@);
                let sub = buffer@.subrange(0, 4 * i + 4);
                assert(sub.subrange(0, sub.len() - 4) =~= buffer@.subrange(0, 4 * i as int));
                assert(le_word(sub.subrange(sub.len() - 4, sub.len() as int)) == w);
                assert(self.fifo_out@.skip(out0.len() as int) =~= fb.skip(out0.len() as int).push(w));
            }
            i = i + 1;
        }
        let ghost tm = self.trace@;
        let r = self.finish_transfer();
        proof {
            let tf = self.trace@;
            lemma_push_prefix(tm, tf.last());
            lemma_prefix_split(t0, tm, tf);
            lemma_prefix_split(t0, tk, tm);
            let t = tf.skip(t0.len() as int);
            let k = tk.len() - t0.len();
            let m = tm.len() - t0.len();
            assert(t.subrange(0, k) =~= tk.skip(t0.len() as int));
            assert(t.subrange(k, m) =~= tm.skip(tk.len() as int));
            assert(t[m] == tf.last());
        }
        r
    }

    /// Full card bring-up, driven through `CardState`: controller bring-up
    /// (card detection, then reset and configuration), then identification.
    /// Ends `Ready`, or `Failed` with the error of the step that failed; a
    /// bring-up failure sends no command.
    pub fn bring_up(&mut self) -> (r: CardState)
        ensures
            r is Ready || r is Failed,
            final(self).budget_spec() == old(self).budget_spec(),
            old(self).trace().is_prefix_of(final(self).trace()),
            old(self).txns().is_prefix_of(final(self).txns()),
            exists|k: int, ires: Result<(), MmcError>|
                #![trigger init_run(final(self).trace().skip(old(self).trace().len() as int).subrange(0, k), old(self).budget_spec(), ires)]
                {
                    &&& 0 <= k <= final(self).trace().len() - old(self).trace().len()
                    &&& init_run(
                        final(self).trace().skip(old(self).trace().len() as int).subrange(0, k),
                        old(self).budget_spec(),
                        ires,
                    )
                    &&& ires is Err ==> {
                        &&& r == CardState::Failed(ires->Err_0)
                        &&& k == final(self).trace().len() - old(self).trace().len()
                        &&& final(self).txns() == old(self).txns()
                    }
                    &&& ires is Ok ==> commands_in(
                        final(self).trace().skip(old(self).trace().len() as int).skip(k),
                        final(self).txns().skip(old(self).txns().len() as int),
                        old(self).budget_spec(),
                    )
                },
            r == CardState::Failed(MmcError::CardNotPresent) || r == CardState::Failed(MmcError::ResetTimeout)
                ==> final(self).txns() == old(self).txns(),
            !(r == CardState::Failed(MmcError::CardNotPresent) || r == CardState::Failed(MmcError::ResetTimeout))
                ==> exists|res: Result<u32, MmcError>|
                #![trigger identification(final(self).txns().skip(old(self).txns().len() as int), old(self).budget_spec(), res)]
                {
                    &&& identification(
                        final(self).txns().skip(old(self).txns().len() as int),
                        old(self).budget_spec(),
                        res,
                    )
                    &&& res is Ok <==> r is Ready
                    &&& res is Err ==> r == CardState::Failed(res->Err_0)
                },
    {
        let ghost x0 = self.txns@;
        let ghost t0 = self.trace@;
        let ghost b = self.budget;
        proof {
            lemma_commands_none(t0, x0, b);
        }
        let mut state = CardState::Absent;
        let init = self.init();
        let ghost t1 = self.trace@;
        let detect: Result<(), MmcError> = match init {
            Err(MmcError::CardNotPresent) => Err(MmcError::CardNotPresent),
            _ => Ok(()),
        };
        state = state.advance(detect);
        state = state.advance(init);
        let ident = match state {
            CardState::Reset => self.identify(),
            _ => {
                proof {
                    let t = t1.skip(t0.len() as int);
                    assert(t.subrange(0, t.len() as int) =~= t);
                    assert(init_run(t.subrange(0, t.len() as int), b, init));
                }
                return state;
            },
        };
        proof {
            let t2 = self.trace@;
            lemma_prefix_split(t0, t1, t2);
            let t = t2.skip(t0.len() as int);
            let k = t1.len() - t0.len();
            assert(t.subrange(0, k) =~= t1.skip(t0.len() as int));
            assert(t.skip(k) =~= t2.skip(t1.len() as int));
            assert(init_run(t.subrange(0, k), b, init));
        }
        state = state.advance(Ok(()));
        match ident {
            Ok(_) => state.advance(Ok(())),
            Err(e) => {
                let r = state.advance(Err(e));
                proof {
                    lemma_identification_errors(self.txns@.skip(x0.len() as int), self.budget, ident);
                }
                r
            },
        }
    }
}

} // verus!
