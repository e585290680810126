use drivers::mmc::{
    CardState, bus_width_encoding, clock_divisor, fifo_threshold, MmcError, SdMmc, BLKSIZ, BLOCK_SIZE,
    BYTCNT, CDETECT, CLKDIV, CLKENA, CMD, CMDARG, CMD_START, CMD_UPDATE_CLOCK, CTRL, CTYPE, DATA,
    DEFAULT_BUDGET, FIFOTH, IF_COND_ARG, PWREN, RESP0, RINTSTS, RINTSTS_CLEAR, RINTSTS_DATA_CRC,
    RINTSTS_DATA_TIMEOUT, STATUS, STATUS_FIFO_EMPTY, TMOUT,
};
use drivers::window::RegisterWindow;

/// A controller held in memory. Only the register window is simulated.
struct Sim {
    regs: Vec<u32>,
    card_present: bool,
    reset_clears: bool,
    start_clears: bool,
    if_cond_echo: bool,
    busy_rounds: u32,
    resp0: Option<u32>,
    fifo: Vec<u32>,
    data_status: u32,
    writes: Vec<(usize, u32)>,
    reads: Vec<usize>,
}

impl Sim {
    fn new() -> Sim {
        Sim {
            regs: vec![0; 0x400 / 4],
            card_present: true,
            reset_clears: true,
            start_clears: true,
            if_cond_echo: true,
            busy_rounds: 0,
            resp0: None,
            fifo: Vec::new(),
            data_status: 0,
            writes: Vec::new(),
            reads: Vec::new(),
        }
    }

    fn reads_of(&self, offset: usize) -> usize {
        self.reads.iter().filter(|o| **o == offset).count()
    }

    fn writes_to(&self, offset: usize) -> Vec<u32> {
        self.writes.iter().filter(|w| w.0 == offset).map(|w| w.1).collect()
    }
}

impl RegisterWindow for Sim {
    fn read(&mut self, offset: usize) -> u32 {
        self.reads.push(offset);
        match offset {
            CDETECT => {
                if self.card_present {
                    0
                } else {
                    1
                }
            }
            STATUS => {
                if self.fifo.is_empty() {
                    STATUS_FIFO_EMPTY
                } else {
                    0
                }
            }
            DATA => self.fifo.remove(0),
            RINTSTS => self.regs[RINTSTS / 4] | self.data_status,
            _ => self.regs[offset / 4],
        }
    }

    fn write(&mut self, offset: usize, value: u32) {
        self.writes.push((offset, value));
        let mut v = value;
        if offset == CTRL && self.reset_clears {
            v &= !0x7;
        }
        if offset == CMD {
            if self.start_clears {
                v &= !CMD_START;
            }
            let index = value & 0x3F;
            let resp = match self.resp0 {
                Some(r) => r,
                None => match index {
                    8 => {
                        if self.if_cond_echo {
                            IF_COND_ARG
                        } else {
                            0
                        }
                    }
                    41 => {
                        if self.busy_rounds > 0 {
                            self.busy_rounds -= 1;
                            0x00FF_8000
                        } else {
                            0xC0FF_8000
                        }
                    }
                    _ => 0,
                },
            };
            self.regs[RESP0 / 4] = resp;
        }
        if offset == RINTSTS {
            self.regs[RINTSTS / 4] &= !value;
        } else if offset != DATA {
            self.regs[offset / 4] = v;
        }
    }
}

#[test]
fn divisor_at_identification_frequency() {
    assert_eq!(clock_divisor(50_000_000, 400_000), 62);
    assert_eq!(clock_divisor(50_000_000, 400_000), 0x3E);
}

#[test]
fn divisor_keeps_low_eight_bits() {
    // 50 MHz / (2 * 1 kHz) = 25000, of which the low byte is 0xA8.
    assert_eq!(clock_divisor(50_000_000, 1_000), 25_000 & 0xFF);
    assert_eq!(clock_divisor(50_000_000, 1_000), 168);
    assert_eq!(clock_divisor(50_000_000, 25_000_000), 1);
}

#[test]
fn divisor_of_zero_frequency_is_zero() {
    assert_eq!(clock_divisor(50_000_000, 0), 0);
}

#[test]
fn bus_width_encodings() {
    assert_eq!(bus_width_encoding(1), 0x0);
    assert_eq!(bus_width_encoding(4), 0x1);
    assert_eq!(bus_width_encoding(8), 0x10000);
}

#[test]
fn unknown_bus_width_is_one_bit() {
    assert_eq!(bus_width_encoding(0), 0x0);
    assert_eq!(bus_width_encoding(2), 0x0);
    assert_eq!(bus_width_encoding(16), 0x0);
}

#[test]
fn fifo_threshold_packing() {
    assert_eq!(fifo_threshold(7, 8, 2), (2 << 28) | (7 << 16) | 8);
    assert_eq!(fifo_threshold(7, 8, 2), 0x2007_0008);
    assert_eq!(fifo_threshold(255, 255, 7), 0x70FF_00FF);
}

#[test]
fn init_without_card_never_touches_reset() {
    let mut sim = Sim::new();
    sim.card_present = false;
    let mut mmc = SdMmc::new(sim);
    assert_eq!(mmc.init(), Err(MmcError::CardNotPresent));
    assert!(mmc.window().writes.is_empty());
    assert_eq!(mmc.window().reads, vec![CDETECT]);
}

#[test]
fn card_detect_reads_detect_bit() {
    let mut sim = Sim::new();
    sim.card_present = false;
    let mut mmc = SdMmc::new(sim);
    assert!(!mmc.card_detect());
    let mut mmc = SdMmc::new(Sim::new());
    assert!(mmc.card_detect());
}

#[test]
fn reset_timeout_after_exact_budget() {
    let mut sim = Sim::new();
    sim.reset_clears = false;
    let mut mmc = SdMmc::with_budget(sim, 5);
    assert_eq!(mmc.init(), Err(MmcError::ResetTimeout));
    assert_eq!(mmc.window().reads_of(CTRL), 5);
    assert_eq!(mmc.window().writes, vec![(CTRL, 0x7)]);
}

#[test]
fn reset_timeout_after_default_budget() {
    let mut sim = Sim::new();
    sim.reset_clears = false;
    let mut mmc = SdMmc::new(sim);
    assert_eq!(mmc.budget(), DEFAULT_BUDGET);
    assert_eq!(mmc.init(), Err(MmcError::ResetTimeout));
    assert_eq!(mmc.window().reads_of(CTRL), DEFAULT_BUDGET as usize);
}

#[test]
fn init_programs_controller_in_order() {
    let mut mmc = SdMmc::new(Sim::new());
    assert_eq!(mmc.init(), Ok(()));
    let expected = vec![
        (CTRL, 0x7),
        (PWREN, 1),
        (CLKENA, 0),
        (CMD, CMD_UPDATE_CLOCK),
        (CLKDIV, 62),
        (CLKENA, 1),
        (CMD, CMD_UPDATE_CLOCK),
        (CTYPE, 0),
        (TMOUT, 0xFFFF_FFFF),
        (FIFOTH, (2 << 28) | (7 << 16) | 8),
    ];
    assert_eq!(mmc.window().writes, expected);
}

#[test]
fn init_tolerates_unacknowledged_clock_update() {
    let mut sim = Sim::new();
    sim.start_clears = false;
    let mut mmc = SdMmc::with_budget(sim, 3);
    assert_eq!(mmc.init(), Ok(()));
    assert_eq!(mmc.window().reads_of(CMD), 6);
}

#[test]
fn send_command_returns_response_word_verbatim() {
    let mut sim = Sim::new();
    sim.resp0 = Some(0xDEAD_BEEF);
    let mut mmc = SdMmc::new(sim);
    assert_eq!(mmc.send_command(17, 0x1234), Ok(0xDEAD_BEEF));
    assert_eq!(mmc.window().writes, vec![(CMDARG, 0x1234), (CMD, CMD_START | 17)]);
    assert_eq!(mmc.window().reads, vec![CMD, RESP0]);
}

#[test]
fn send_command_timeout_after_budget() {
    let mut sim = Sim::new();
    sim.start_clears = false;
    let mut mmc = SdMmc::with_budget(sim, 7);
    assert_eq!(mmc.send_command(0, 0), Err(MmcError::CommandTimeout));
    assert_eq!(mmc.window().reads_of(CMD), 7);
    assert_eq!(mmc.window().reads_of(RESP0), 0);
}

#[test]
fn identify_ready_card() {
    let mut sim = Sim::new();
    sim.busy_rounds = 2;
    let mut mmc = SdMmc::new(sim);
    assert_eq!(mmc.identify(), Ok(0xC0FF_8000));
    let cmds: Vec<u32> = mmc.window().writes_to(CMD).iter().map(|c| c & 0x3F).collect();
    assert_eq!(cmds, vec![0, 8, 55, 41, 55, 41, 55, 41]);
    let args = mmc.window().writes_to(CMDARG);
    assert_eq!(args, vec![0, 0x1AA, 0, 0x40FF_8000, 0, 0x40FF_8000, 0, 0x40FF_8000]);
}

#[test]
fn identify_without_echo_is_unsupported() {
    let mut sim = Sim::new();
    sim.if_cond_echo = false;
    let mut mmc = SdMmc::new(sim);
    assert_eq!(mmc.identify(), Err(MmcError::UnsupportedCard));
    assert_eq!(mmc.window().writes_to(CMD).len(), 2);
}

#[test]
fn identify_unresponsive_card_fails() {
    let mut sim = Sim::new();
    sim.start_clears = false;
    let mut mmc = SdMmc::with_budget(sim, 4);
    assert_eq!(mmc.identify(), Err(MmcError::InitFailed));
    assert_eq!(mmc.window().writes_to(CMD).len(), 1);
}

#[test]
fn identify_gives_up_after_budget_rounds() {
    let mut sim = Sim::new();
    sim.busy_rounds = 100;
    let mut mmc = SdMmc::with_budget(sim, 3);
    assert_eq!(mmc.identify(), Err(MmcError::InitFailed));
    assert_eq!(mmc.window().writes_to(CMD).len(), 2 + 2 * 3);
}

#[test]
fn read_block_stores_fifo_words_little_endian() {
    let mut sim = Sim::new();
    sim.fifo = (0..128u32).map(|i| 0x0403_0201u32.wrapping_add(i.wrapping_mul(0x0404_0404))).collect();
    let mut mmc = SdMmc::new(sim);
    let mut buf = vec![0u8; BLOCK_SIZE];
    assert_eq!(mmc.read_block(9, &mut buf), Ok(()));
    assert_eq!(&buf[0..8], &[1, 2, 3, 4, 5, 6, 7, 8]);
    let last = 0x0403_0201u32.wrapping_add(127u32.wrapping_mul(0x0404_0404));
    assert_eq!(&buf[508..512], &last.to_le_bytes());
    assert_eq!(mmc.window().writes_to(BLKSIZ), vec![512]);
    assert_eq!(mmc.window().writes_to(BYTCNT), vec![512]);
    assert_eq!(mmc.window().writes_to(CMD), vec![CMD_START | 0x2340 | 17]);
    assert_eq!(mmc.window().writes_to(CMDARG), vec![9]);
    assert_eq!(mmc.window().writes_to(RINTSTS), vec![RINTSTS_CLEAR]);
    assert_eq!(mmc.window().reads_of(RINTSTS), 1);
}

#[test]
fn read_block_leaves_bytes_past_the_block() {
    let mut sim = Sim::new();
    sim.fifo = vec![0xA1B2_C3D4; 128];
    let mut mmc = SdMmc::new(sim);
    let mut buf = vec![0x55u8; BLOCK_SIZE + 8];
    assert_eq!(mmc.read_block(1, &mut buf), Ok(()));
    assert_eq!(&buf[0..4], &[0xD4, 0xC3, 0xB2, 0xA1]);
    assert_eq!(&buf[508..512], &[0xD4, 0xC3, 0xB2, 0xA1]);
    assert_eq!(&buf[512..], &[0x55u8; 8]);
}

#[test]
fn read_block_reports_data_crc_error() {
    let mut sim = Sim::new();
    sim.fifo = vec![0; 128];
    sim.data_status = RINTSTS_DATA_CRC;
    let mut mmc = SdMmc::new(sim);
    let mut buf = vec![0u8; BLOCK_SIZE];
    assert_eq!(mmc.read_block(2, &mut buf), Err(MmcError::DataCrc));
}

#[test]
fn read_block_reports_data_timeout() {
    let mut sim = Sim::new();
    sim.fifo = vec![0; 128];
    sim.data_status = RINTSTS_DATA_TIMEOUT;
    let mut mmc = SdMmc::new(sim);
    let mut buf = vec![0u8; BLOCK_SIZE];
    assert_eq!(mmc.read_block(2, &mut buf), Err(MmcError::CommandTimeout));
}

#[test]
fn read_block_times_out_on_empty_fifo() {
    let mut sim = Sim::new();
    sim.fifo = vec![0x1111_1111; 3];
    let mut mmc = SdMmc::with_budget(sim, 4);
    let mut buf = vec![0u8; BLOCK_SIZE];
    assert_eq!(mmc.read_block(0, &mut buf), Err(MmcError::CommandTimeout));
    assert_eq!(mmc.window().reads_of(DATA), 3);
}

#[test]
fn read_block_command_timeout() {
    let mut sim = Sim::new();
    sim.start_clears = false;
    let mut mmc = SdMmc::with_budget(sim, 2);
    let mut buf = vec![0u8; BLOCK_SIZE];
    assert_eq!(mmc.read_block(0, &mut buf), Err(MmcError::CommandTimeout));
    assert_eq!(mmc.window().reads_of(STATUS), 0);
}

#[test]
fn write_block_hands_words_little_endian() {
    let mut mmc = SdMmc::new(Sim::new());
    let buf: Vec<u8> = (0..BLOCK_SIZE).map(|i| (i % 251) as u8).collect();
    assert_eq!(mmc.write_block(3, &buf), Ok(()));
    let words = mmc.window().writes_to(DATA);
    assert_eq!(words.len(), 128);
    assert_eq!(words[0], 0x0302_0100);
    assert_eq!(words[1], 0x0706_0504);
    assert_eq!(mmc.window().writes_to(CMD), vec![CMD_START | 0x2740 | 24]);
}

#[test]
fn write_block_uses_first_block_of_longer_buffer() {
    let mut mmc = SdMmc::new(Sim::new());
    let mut buf = vec![0x11u8; BLOCK_SIZE];
    buf.extend_from_slice(&[0xEE; 16]);
    assert_eq!(mmc.write_block(4, &buf), Ok(()));
    let words = mmc.window().writes_to(DATA);
    assert_eq!(words.len(), 128);
    assert!(words.iter().all(|w| *w == 0x1111_1111));
}

#[test]
fn write_block_reports_data_crc_error() {
    let mut sim = Sim::new();
    sim.data_status = RINTSTS_DATA_CRC | RINTSTS_DATA_TIMEOUT;
    let mut mmc = SdMmc::new(sim);
    let buf = vec![0u8; BLOCK_SIZE];
    assert_eq!(mmc.write_block(4, &buf), Err(MmcError::DataCrc));
}

#[test]
fn set_clock_writes_divisor_once() {
    let mut mmc = SdMmc::new(Sim::new());
    mmc.set_clock(400_000);
    assert_eq!(mmc.window().writes_to(CLKDIV), vec![62]);
}

#[test]
fn set_bus_width_writes_encoding() {
    let mut mmc = SdMmc::new(Sim::new());
    mmc.set_bus_width(8);
    mmc.set_bus_width(4);
    mmc.set_bus_width(3);
    assert_eq!(mmc.window().writes, vec![(CTYPE, 0x10000), (CTYPE, 0x1), (CTYPE, 0x0)]);
}

#[test]
fn bring_up_reaches_ready() {
    let mut sim = Sim::new();
    sim.busy_rounds = 1;
    let mut mmc = SdMmc::new(sim);
    assert_eq!(mmc.bring_up(), CardState::Ready);
    let cmds: Vec<u32> = mmc.window().writes_to(CMD).iter().map(|c| c & 0x3F).collect();
    assert_eq!(cmds.len(), 2 + 1 + 2 + 2 + 1);
}

#[test]
fn bring_up_without_card_fails_before_commands() {
    let mut sim = Sim::new();
    sim.card_present = false;
    let mut mmc = SdMmc::new(sim);
    assert_eq!(mmc.bring_up(), CardState::Failed(MmcError::CardNotPresent));
    assert!(mmc.window().writes.is_empty());
}

#[test]
fn bring_up_reset_timeout() {
    let mut sim = Sim::new();
    sim.reset_clears = false;
    let mut mmc = SdMmc::with_budget(sim, 2);
    assert_eq!(mmc.bring_up(), CardState::Failed(MmcError::ResetTimeout));
    assert!(mmc.window().writes_to(CMDARG).is_empty());
}

#[test]
fn bring_up_unsupported_card() {
    let mut sim = Sim::new();
    sim.if_cond_echo = false;
    let mut mmc = SdMmc::new(sim);
    assert_eq!(mmc.bring_up(), CardState::Failed(MmcError::UnsupportedCard));
}

#[test]
fn card_state_transitions() {
    assert_eq!(CardState::Absent.advance(Ok(())), CardState::Detected);
    assert_eq!(CardState::Detected.advance(Ok(())), CardState::Reset);
    assert_eq!(CardState::Reset.advance(Ok(())), CardState::Identifying);
    assert_eq!(CardState::Identifying.advance(Ok(())), CardState::Ready);
    assert_eq!(
        CardState::Identifying.advance(Err(MmcError::InitFailed)),
        CardState::Failed(MmcError::InitFailed)
    );
    assert_eq!(CardState::Ready.advance(Err(MmcError::InitFailed)), CardState::Ready);
    assert_eq!(
        CardState::Failed(MmcError::ResetTimeout).advance(Ok(())),
        CardState::Failed(MmcError::ResetTimeout)
    );
}
