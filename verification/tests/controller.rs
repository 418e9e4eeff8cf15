use ai_os::emmc::{
    calc_clock_field, clock_message, sd_init, sd_read_block, supply_message, SdCard, CMD_NEED_APP,
};
use ai_os::session::{Next, RegOp};

/// A controller with a card that answers as one of version 2 with block addresses.
struct Host {
    commands: Vec<(u32, u32)>,
    arg: u32,
    last: u32,
    control1: u32,
    words: u32,
    busy: u32,
    block_addresses: bool,
    fail: Option<u32>,
    powered: bool,
    too_early: u32,
}

impl Host {
    fn new() -> Host {
        Host {
            commands: Vec::new(),
            arg: 0,
            last: 0,
            control1: 0,
            words: 0,
            busy: 2,
            block_addresses: true,
            fail: None,
            powered: false,
            too_early: 0,
        }
    }

    fn access(&mut self, op: RegOp) -> u32 {
        match op {
            RegOp::Write(0xFE34_0008, v) => self.arg = v,
            RegOp::Write(0xFE34_000C, v) => {
                if !self.powered {
                    self.too_early += 1;
                }
                self.commands.push((v, self.arg));
                self.last = v >> 24;
            }
            RegOp::Write(0xFE34_0028, v) => self.powered = v & 0xF00 == 0xF00,
            RegOp::Write(0xFE34_002C, v) => self.control1 = v & !0x0100_0000,
            RegOp::Read(0xFE34_002C) => return self.control1 | 2,
            RegOp::Read(0xFE34_0010) => {
                return match self.last {
                    8 => 0x1AA,
                    41 => {
                        if self.busy > 0 {
                            self.busy -= 1;
                            0x00FF_8000
                        } else if self.block_addresses {
                            0xC0FF_8000
                        } else {
                            0x80FF_8000
                        }
                    }
                    3 => 0x1234_0500,
                    _ => 0,
                }
            }
            RegOp::Read(0xFE34_0024) => return 0x20,
            RegOp::Read(0xFE34_0030) => {
                return if self.fail == Some(self.last) { 0x0001_0000 } else { 0x23 };
            }
            RegOp::Read(0xFE34_0020) => {
                self.words += 1;
                return 0x0403_0201u32.wrapping_mul(self.words);
            }
            RegOp::Read(0xFE00_B898) => return 0,
            RegOp::Read(0xFE00_B880) => return 8,
            RegOp::Read(0x2018) => return 100_000_000,
            _ => {}
        }
        0
    }
}

fn bring_up(host: &mut Host) -> (bool, SdCard) {
    let mut m = sd_init(SdCard { rca: 0, hccs: false }, 0x1000, 0x2000);
    loop {
        match m.next() {
            Next::Op(op) => {
                let r = host.access(op);
                m.answer(r);
            }
            Next::Done(r) => return r,
        }
    }
}

fn numbers(host: &Host) -> Vec<u32> {
    host.commands.iter().map(|c| c.0 >> 24).collect()
}

#[test]
fn the_clock_divisor_is_the_smallest_that_is_slow_enough() {
    // 200 MHz / (2 * 250) = 400 kHz; 200 MHz / (2 * 4) = 25 MHz.
    assert_eq!(calc_clock_field(200_000_000, 400_000), 250 << 8);
    assert_eq!(calc_clock_field(200_000_000, 25_000_000), 4 << 8);
    // Not slower than the clock itself.
    assert_eq!(calc_clock_field(0, 0), 0);
    assert_eq!(calc_clock_field(25_000_000, 25_000_000), 0);
    // The two high bits of the divisor lie elsewhere.
    assert_eq!(calc_clock_field(400_000_000, 400_000), (500 & 0xFF) << 8 | (500 >> 8) << 6);
    // The divisor does not go beyond its field.
    assert_eq!(calc_clock_field(400_000_000, 1000), 0xFF << 8 | 3 << 6);
}

#[test]
fn a_card_with_block_addresses_is_brought_up() {
    let mut host = Host::new();
    let (ok, card) = bring_up(&mut host);
    assert!(ok);
    assert_eq!(card, SdCard { rca: 0x1234, hccs: true });
    assert_eq!(numbers(&host), vec![0, 8, 55, 41, 55, 41, 55, 41, 2, 3, 7]);
    assert_eq!(host.commands[1].1, 0x1AA);
    assert_eq!(host.commands[3].1, 0x51FF_8000);
    assert_eq!(host.commands[10].1, 0x1234_0000);
    // The flag of application commands stays in the driver.
    assert!(host.commands.iter().all(|c| c.0 & CMD_NEED_APP == 0));
}

#[test]
fn the_bus_is_powered_before_the_first_command() {
    let mut host = Host::new();
    assert!(bring_up(&mut host).0);
    assert!(host.powered);
    assert_eq!(host.too_early, 0);
}

#[test]
fn a_byte_addressed_card_gets_its_block_length() {
    let mut host = Host::new();
    host.block_addresses = false;
    let (ok, card) = bring_up(&mut host);
    assert!(ok);
    assert!(!card.hccs);
    assert_eq!(host.commands.last().unwrap().0 >> 24, 16);
    assert_eq!(host.commands.last().unwrap().1, 512);
}

#[test]
fn a_card_that_fails_a_command_is_not_ready() {
    for cmd in [41u32, 2, 3, 7] {
        let mut host = Host::new();
        host.fail = Some(cmd);
        assert!(!bring_up(&mut host).0);
        assert_eq!(*numbers(&host).last().unwrap(), cmd);
    }
}

#[test]
fn a_card_that_never_gets_ready_is_given_up() {
    let mut host = Host::new();
    host.busy = 1000;
    assert!(!bring_up(&mut host).0);
    assert_eq!(numbers(&host).iter().filter(|c| **c == 41).count(), 50);
}

fn block(host: &mut Host, card: SdCard, lba: u32) -> Option<[u8; 512]> {
    let mut m = sd_read_block(card, lba);
    loop {
        match m.next() {
            Next::Op(op) => {
                let r = host.access(op);
                m.answer(r);
            }
            Next::Done(r) => return r,
        }
    }
}

#[test]
fn a_block_is_128_words_lowest_byte_first() {
    let mut host = Host::new();
    let b = block(&mut host, SdCard { rca: 1, hccs: true }, 77).unwrap();
    assert_eq!(host.words, 128);
    assert_eq!(&b[0..8], &[1, 2, 3, 4, 2, 4, 6, 8]);
    for i in 0..128u32 {
        let w = 0x0403_0201u32.wrapping_mul(i + 1).to_le_bytes();
        assert_eq!(&b[4 * i as usize..4 * i as usize + 4], &w);
    }
    assert_eq!(host.commands, vec![(0x113A_0010, 77)]);
}

#[test]
fn byte_addressed_cards_are_asked_for_a_byte() {
    let mut host = Host::new();
    block(&mut host, SdCard { rca: 1, hccs: false }, 77);
    assert_eq!(host.commands[0].1, 77 * 512);
    let mut host = Host::new();
    block(&mut host, SdCard { rca: 1, hccs: false }, 0x80_0001);
    assert_eq!(host.commands[0].1, 512);
}

#[test]
fn a_refused_block_is_none() {
    let mut host = Host::new();
    host.fail = Some(17);
    assert_eq!(block(&mut host, SdCard { rca: 1, hccs: true }, 0), None);
    assert_eq!(host.words, 0);
}

#[test]
fn the_firmware_messages_have_their_tags() {
    let s = supply_message();
    let c = clock_message();
    assert_eq!(s[0], 32);
    assert_eq!(c[0], 32);
    assert_eq!(s[2], 0x0003_8041);
    assert_eq!(c[2], 0x0003_0002);
}
