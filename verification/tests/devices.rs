use ai_os::board::Board;
use ai_os::gpio::{blink, delay_ms, init_led, led_off, led_on};
use ai_os::mailbox::{call, PROP_CHANNEL, RESPONSE_SUCCESS};
use ai_os::session::{Next, RegOp};
use ai_os::uart::{
    base_address, getc, getc_nonblocking, init, put_bytes, putc, puts, Puts, UartWriter,
};

#[test]
fn peripherals_lie_where_the_board_has_them() {
    assert_eq!(Board::Rpi3.peripherals(), 0x3F00_0000);
    assert_eq!(Board::Rpi4.peripherals(), 0xFE00_0000);
    assert_eq!(base_address(Board::Rpi3), 0x3F20_1000);
    assert_eq!(base_address(Board::Rpi4), 0xFE20_1000);
}

#[test]
fn the_led_pin_becomes_an_output() {
    let mut m = init_led(Board::Rpi4);
    assert_eq!(m.next(), Next::Op(RegOp::Read(0xFE20_0010)));
    m.answer(0xFFFF_FFFF);
    assert_eq!(m.next(), Next::Op(RegOp::Write(0xFE20_0010, 0xFFFF_FE7F)));
    m.answer(0);
    assert_eq!(m.next(), Next::Done(()));
    let mut m = init_led(Board::Rpi3);
    assert_eq!(m.next(), Next::Op(RegOp::Read(0x3F20_0010)));
    m.answer(0);
    assert_eq!(m.next(), Next::Op(RegOp::Write(0x3F20_0010, 1 << 21)));
}

#[test]
fn the_led_is_switched_by_its_own_bit() {
    assert_eq!(led_on(Board::Rpi4), RegOp::Write(0xFE20_0020, 1 << 10));
    assert_eq!(led_off(Board::Rpi4), RegOp::Write(0xFE20_002C, 1 << 10));
    assert_eq!(led_on(Board::Rpi3), RegOp::Write(0x3F20_0020, 1 << 15));
    assert_eq!(led_off(Board::Rpi3), RegOp::Write(0x3F20_002C, 1 << 15));
    assert_eq!(delay_ms(0), RegOp::Nops(0));
    assert_eq!(delay_ms(200), RegOp::Nops(300_000));
}

#[test]
fn blinking_is_so_many_rounds() {
    let mut m = blink(Board::Rpi4, 3, 200, 100);
    let mut ops: Vec<RegOp> = Vec::new();
    while let Next::Op(op) = m.next() {
        ops.push(op);
        m.answer(0);
    }
    let round = [
        led_on(Board::Rpi4),
        RegOp::Nops(300_000),
        led_off(Board::Rpi4),
        RegOp::Nops(150_000),
    ];
    assert_eq!(ops.len(), 12);
    for i in 0..12 {
        assert_eq!(ops[i], round[i % 4]);
    }
    assert_eq!(blink(Board::Rpi4, 0, 1, 1).next(), Next::Done(()));
}

#[test]
fn the_uart_is_set_up_for_115200_baud() {
    let b = 0xFE20_1000;
    assert_eq!(
        init(Board::Rpi4),
        vec![
            RegOp::Write(b + 0x30, 0),
            RegOp::Write(b + 0x44, 0x7FF),
            RegOp::Write(b + 0x24, 26),
            RegOp::Write(b + 0x28, 3),
            RegOp::Write(b + 0x2C, 0x70),
            RegOp::Write(b + 0x30, 0x301),
        ]
    );
    // 48 MHz / (16 * (26 + 3/64)) is within a quarter of a percent of the rate.
    let rate = 48_000_000.0 / (16.0 * (26.0 + 3.0 / 64.0));
    assert!((rate - 115_200.0f64).abs() < 0.0025 * 115_200.0);
}

#[test]
fn a_byte_waits_for_room() {
    let mut m = putc(Board::Rpi4, b'A');
    for _ in 0..3 {
        assert_eq!(m.next(), Next::Op(RegOp::Read(0xFE20_1018)));
        m.answer(0x20);
    }
    m.answer(0xFFFF_FFDF);
    assert_eq!(m.next(), Next::Op(RegOp::Write(0xFE20_1000, 65)));
    m.answer(0);
    assert_eq!(m.next(), Next::Done(()));
}

/// Drives the sending of a text over a line that is busy every other time.
fn sent(mut m: Puts) -> Vec<u8> {
    let mut out: Vec<u8> = Vec::new();
    let mut busy = false;
    loop {
        match m.next() {
            Next::Op(RegOp::Read(_)) => {
                busy = !busy;
                m.answer(if busy { 0x20 } else { 0 });
            }
            Next::Op(RegOp::Write(0xFE20_1000, b)) => {
                out.push(b as u8);
                m.answer(0);
            }
            Next::Op(_) => panic!("only the UART's registers are expected"),
            Next::Done(()) => return out,
        }
    }
}

#[test]
fn text_goes_out_byte_by_byte() {
    assert_eq!(sent(puts(Board::Rpi4, "a\nb\n")), b"a\r\nb\r\n".to_vec());
    assert_eq!(sent(puts(Board::Rpi4, "")), b"".to_vec());
    assert_eq!(sent(puts(Board::Rpi4, "\r\u{e9}")), vec![13, 0xC3, 0xA9]);
    assert_eq!(sent(put_bytes(Board::Rpi4, &[0xFF, 10])), vec![0xFF, 13, 10]);
    let w = UartWriter { board: Board::Rpi4 };
    assert_eq!(sent(w.write_str("x\n")), b"x\r\n".to_vec());
}

#[test]
fn a_byte_is_received() {
    let mut m = getc(Board::Rpi3);
    assert_eq!(m.next(), Next::Op(RegOp::Read(0x3F20_1018)));
    m.answer(0x10);
    assert_eq!(m.next(), Next::Op(RegOp::Read(0x3F20_1018)));
    m.answer(0);
    assert_eq!(m.next(), Next::Op(RegOp::Read(0x3F20_1000)));
    m.answer(0xABC0_0141);
    assert_eq!(m.next(), Next::Done(0x41));
}

#[test]
fn receiving_need_not_wait() {
    let mut m = getc_nonblocking(Board::Rpi4);
    m.answer(0x10);
    assert_eq!(m.next(), Next::Done(0));
    let mut m = getc_nonblocking(Board::Rpi4);
    m.answer(0);
    assert_eq!(m.next(), Next::Op(RegOp::Read(0xFE20_1000)));
    m.answer(0x37A);
    assert_eq!(m.next(), Next::Done(0x7A));
}

#[test]
fn a_message_waits_for_room_and_its_own_reply() {
    let mut m = call(Board::Rpi4, 0x0010_0010, PROP_CHANNEL);
    assert_eq!(m.next(), Next::Op(RegOp::DataMemoryBarrier));
    m.answer(0);
    assert_eq!(m.next(), Next::Op(RegOp::Read(0xFE00_B898)));
    m.answer(0x8000_0000);
    assert_eq!(m.next(), Next::Op(RegOp::Read(0xFE00_B898)));
    m.answer(0);
    assert_eq!(m.next(), Next::Op(RegOp::Write(0xFE00_B8A0, 0x0010_0018)));
    m.answer(0);
    assert_eq!(m.next(), Next::Op(RegOp::Read(0xFE00_B898)));
    m.answer(0x4000_0000);
    m.answer(0);
    assert_eq!(m.next(), Next::Op(RegOp::Read(0xFE00_B880)));
    // A reply on another channel is dropped.
    m.answer(0x0010_0013);
    assert_eq!(m.next(), Next::Op(RegOp::Read(0xFE00_B898)));
    m.answer(0);
    m.answer(0x0010_0018);
    assert_eq!(m.next(), Next::Op(RegOp::Read(0x0010_0014)));
    m.answer(RESPONSE_SUCCESS);
    assert_eq!(m.next(), Next::Done(true));
}

#[test]
fn a_message_can_fail() {
    let mut m = call(Board::Rpi3, 0, 8);
    m.answer(0);
    assert_eq!(m.next(), Next::Op(RegOp::Read(0x3F00_B898)));
    m.answer(0);
    m.answer(0);
    m.answer(0);
    m.answer(8);
    assert_eq!(m.next(), Next::Op(RegOp::Read(4)));
    m.answer(0x8000_0001);
    assert_eq!(m.next(), Next::Done(false));
}
