use folkering::bump::BumpAllocator;
use folkering::counter::format_counter;
use folkering::intents::{
    message_op, opcode_to_capability, shell_opcode, Capability, Router, ShellOp,
};
use folkering::protocol::{
    build_data_payload, build_frame, parse_hello, parse_result, peek_header, take_frame, to_bits,
    to_signed, ProtoError, FRAME_CODE, FRAME_DATA, FRAME_HELLO, FRAME_RESULT,
};
use folkering::streamer::{
    connect_begun, connect_polled, expect_hello, expect_result, frame_header, next_retry,
    parse_ipv4, parse_u16, result_matches, sample_frame, sample_of, signed_code_frame, RetryStep,
    StreamError, TcpError, TcpEvent, TcpStep, Transfer, BACKOFF_INITIAL_MS,
};

// Addresses and retries

#[test]
fn addresses_are_read() {
    assert_eq!(parse_ipv4("192.168.0.17"), [192, 168, 0, 17]);
    assert_eq!(parse_ipv4("10.1"), [10, 1, 0, 0]);
    assert_eq!(parse_ipv4("255.0.9.100"), [255, 0, 9, 100]);
    assert_eq!(parse_ipv4(""), [0, 0, 0, 0]);
    assert_eq!(parse_ipv4("1.2.3.4.5"), [1, 2, 3, 4]);
    assert_eq!(parse_ipv4("300.1.1.1"), [44, 1, 1, 1]);
    assert_eq!(parse_u16("14712"), 14712);
    assert_eq!(parse_u16("65535\n"), 65535);
    assert_eq!(parse_u16("65536"), 0);
}

#[test]
fn pauses_double_up_to_the_cap() {
    let mut ms = BACKOFF_INITIAL_MS;
    let mut seen = Vec::new();
    for attempt in 1..10 {
        match next_retry(attempt, ms) {
            RetryStep::Wait { ms: now, next_ms } => {
                seen.push(now);
                ms = next_ms;
            }
            RetryStep::GiveUp => {
                assert_eq!(attempt, 5);
                break;
            }
        }
    }
    assert_eq!(seen, vec![2_000, 4_000, 8_000, 16_000]);
    assert_eq!(next_retry(1, 32_000), RetryStep::Wait { ms: 32_000, next_ms: 32_000 });
}

// Transfers

#[test]
fn connections_need_a_slot() {
    assert_eq!(connect_begun(TcpEvent::Value { n: 3 }), Ok(()));
    for e in [TcpEvent::Again, TcpEvent::Failed, TcpEvent::Value { n: 0xFFFF }] {
        assert_eq!(connect_begun(e), Err(TcpError::ConnectFailed));
    }
    assert_eq!(connect_polled(TcpEvent::Again), TcpStep::Yield);
    assert_eq!(connect_polled(TcpEvent::Value { n: 0 }), TcpStep::Done);
    assert_eq!(
        connect_polled(TcpEvent::Failed),
        TcpStep::Stop { error: TcpError::ConnectFailed }
    );
}

#[test]
fn transfers_count_bytes() {
    let mut t = Transfer::new(10);
    assert_eq!(t.sent(TcpEvent::Again), TcpStep::Yield);
    assert_eq!(t.sent(TcpEvent::Value { n: 4 }), TcpStep::Continue);
    assert_eq!(t.done, 4);
    assert_eq!(t.sent(TcpEvent::Failed), TcpStep::Stop { error: TcpError::SendFailed });
    assert_eq!(t.sent(TcpEvent::Value { n: 60 }), TcpStep::Done);
    assert_eq!(t.done, 10);
    let mut r = Transfer::new(2);
    assert_eq!(r.received(TcpEvent::Value { n: 1 }), TcpStep::Continue);
    assert_eq!(
        r.received(TcpEvent::Value { n: 0 }),
        TcpStep::Stop { error: TcpError::PeerClosed }
    );
    assert_eq!(r.received(TcpEvent::Failed), TcpStep::Stop { error: TcpError::RecvFailed });
    assert_eq!(r.received(TcpEvent::Again), TcpStep::Yield);
    assert_eq!(r.received(TcpEvent::Value { n: 1 }), TcpStep::Done);
}

// Frames

#[test]
fn frames_come_back() {
    let f = build_frame(FRAME_DATA, b"abc");
    assert_eq!(f, [3, 3, 0, 0, 0, b'a', b'b', b'c']);
    let mut two = f.clone();
    two.extend(build_frame(FRAME_CODE, b""));
    let (ty, payload, total) = take_frame(&two).unwrap();
    assert_eq!((ty, payload, total), (FRAME_DATA, &b"abc"[..], 8));
    let (ty, payload, total) = take_frame(&two[8..]).unwrap();
    assert_eq!((ty, payload, total), (FRAME_CODE, &b""[..], 5));
    for k in 0..f.len() {
        assert!(take_frame(&f[..k]).is_none());
    }
    assert_eq!(peek_header(&f), Some((3, 3)));
    assert_eq!(peek_header(&f[..4]), None);
    assert_eq!(frame_header(&[5, 1, 2, 0, 0]), (5, 513));
}

fn hello(helpers: &[(&[u8], u64)]) -> Vec<u8> {
    let mut b = 0x4000_0000u64.to_le_bytes().to_vec();
    b.extend_from_slice(&4096u32.to_le_bytes());
    b.extend_from_slice(&(helpers.len() as u32).to_le_bytes());
    for (name, addr) in helpers {
        b.push(name.len() as u8);
        b.extend_from_slice(name);
        b.extend_from_slice(&addr.to_le_bytes());
    }
    b
}

#[test]
fn hello_comes_back() {
    let h = parse_hello(&hello(&[(b"read", 0x10), (b"print", 0x20), (b"read", 0x30)])).unwrap();
    assert_eq!((h.mem_base, h.mem_size), (0x4000_0000, 4096));
    assert_eq!(h.helpers.len(), 3);
    assert_eq!(h.helper("read"), Some(0x10));
    assert_eq!(h.helper("print"), Some(0x20));
    assert_eq!(h.helper("write"), None);
    let mut longer = hello(&[("æ".as_bytes(), 7)]);
    longer.extend_from_slice(&[1, 2, 3]);
    assert_eq!(parse_hello(&longer).unwrap().helper("æ"), Some(7));
}

#[test]
fn malformed_hellos_are_refused() {
    let whole = hello(&[(b"read", 0x10)]);
    assert_eq!(parse_hello(&whole[..15]).err(), Some(ProtoError::Truncated));
    assert_eq!(parse_hello(&whole[..16]).err(), Some(ProtoError::Truncated));
    assert_eq!(parse_hello(&whole[..19]).err(), Some(ProtoError::Truncated));
    assert_eq!(parse_hello(&whole[..24]).err(), Some(ProtoError::Truncated));
    let whole = hello(&[("æ".as_bytes(), 0x10), (b"read", 0x10)]);
    for k in 0..whole.len() {
        assert_eq!(parse_hello(&whole[..k]).err(), Some(ProtoError::Truncated));
    }
    let whole = hello(&[(b"read", 0x10)]);
    assert_eq!(parse_hello(&hello(&[(&[0xFF], 1)])).err(), Some(ProtoError::InvalidUtf8));
    assert_eq!(expect_hello(FRAME_HELLO, &[]).err(), Some(StreamError::Protocol));
    assert_eq!(expect_hello(9, &whole).err(), Some(StreamError::UnexpectedFrame(9)));
    assert_eq!(expect_hello(FRAME_HELLO, &whole).unwrap().helper("read"), Some(0x10));
}

#[test]
fn results_are_signed() {
    assert_eq!(parse_result(&(-5i32).to_le_bytes()), Ok(-5));
    assert_eq!(parse_result(&[0; 5]), Err(ProtoError::BadLength));
    assert_eq!(expect_result(FRAME_RESULT, &7i32.to_le_bytes()), Ok(7));
    assert_eq!(expect_result(FRAME_RESULT, &[1]), Err(StreamError::Protocol));
    assert_eq!(expect_result(6, &[]), Err(StreamError::UnexpectedFrame(6)));
    assert_eq!(to_signed(0x8000_0000), i32::MIN);
    assert_eq!(to_bits(-1), u32::MAX);
}

#[test]
fn samples_are_doubled_by_the_other_side() {
    assert_eq!(sample_of(0x1_8000_0001), i32::MIN + 1);
    assert_eq!(build_data_payload(4, b"xy"), [4, 0, 0, 0, b'x', b'y']);
    assert_eq!(
        sample_frame(-2),
        [3, 8, 0, 0, 0, 0, 0, 0, 0, 0xFE, 0xFF, 0xFF, 0xFF]
    );
    assert!(result_matches(21, 42));
    assert!(!result_matches(21, 41));
    assert!(result_matches(i32::MAX, -2));
    assert_eq!(signed_code_frame(b"c", b"tag"), [2, 4, 0, 0, 0, b'c', b't', b'a', b'g']);
}

// Counter

#[test]
fn counters_are_written() {
    let mut buf = [0xAA; 25];
    assert_eq!(format_counter(&mut buf, 1234), 9);
    assert_eq!(&buf[..10], b"tick=1234\xAA");
    assert_eq!(format_counter(&mut buf, u64::MAX), 25);
    assert_eq!(&buf[..], b"tick=18446744073709551615");
    let mut small = [0; 7];
    assert_eq!(format_counter(&mut small, 1234), 7);
    assert_eq!(&small, b"tick=34");
    assert_eq!(format_counter(&mut [0; 3], 0), 3);
    assert_eq!(format_counter(&mut buf, 0), 6);
}

// Command router

const ALL: u64 = 0xFF;

#[test]
fn commands_need_capabilities() {
    assert_eq!(opcode_to_capability(ShellOp::ListFiles), Capability::FileOps);
    assert_eq!(opcode_to_capability(ShellOp::CatFile), Capability::FileOps);
    assert_eq!(opcode_to_capability(ShellOp::Search), Capability::SearchOps);
    assert_eq!(opcode_to_capability(ShellOp::Ps), Capability::ProcessOps);
    assert_eq!(opcode_to_capability(ShellOp::Uptime), Capability::SystemOps);
    assert_eq!(opcode_to_capability(ShellOp::Exec), Capability::ExecOps);
    assert_eq!(opcode_to_capability(ShellOp::Other), Capability::ExecOps);
}

#[test]
fn registrations_serve_commands() {
    let mut r = Router::new(2, ALL);
    assert_eq!(r.find_handler(0x100), None);
    assert!(r.handle_register(7, (0x100 << 16) | 0x01));
    assert_eq!(r.find_handler(0x100), Some(7));
    assert_eq!(r.find_handler(1), Some(2));
    assert!(r.handle_register(7, 0x200 << 16));
    assert_eq!(r.find_handler(0x100), None);
    assert_eq!(r.handlers.len(), 2);
    for task in 10..16 {
        assert!(r.handle_register(task, 1 << 16));
    }
    assert!(!r.handle_register(99, 0x400 << 16));
    assert_eq!(r.find_handler(0x400), None);
    assert!(r.handle_register(15, 0x400 << 16));
    assert_eq!(r.find_handler(0x400), Some(15));
}

#[test]
fn commands_are_forwarded() {
    let mut r = Router::new(2, 1);
    let payload = 0x0000_0012_3456_7801;
    assert_eq!((message_op(payload), shell_opcode(payload)), (0x01, 0x78));
    let f = r.handle_submit(payload, 1, 9);
    assert_eq!((f.task_id, f.request), (2, 0x12_3456_78));
    let f = r.handle_submit(payload, 2, 9);
    assert_eq!(f.task_id, 9);
    assert_eq!(r.routes_total, 2);
    assert_eq!(r.handle_query(1), Some((100 << 32) | 2));
    assert_eq!(r.handle_query(4), None);
}

// Blocks

#[test]
fn blocks_are_aligned_and_apart() {
    let mut b = BumpAllocator::new(64);
    assert_eq!(b.take_block(3, 1), Some(0));
    assert_eq!(b.take_block(8, 8), Some(8));
    let mark = b.checkpoint();
    assert_eq!(mark, 16);
    assert_eq!(b.take_block(40, 16), Some(16));
    assert_eq!(b.take_block(16, 8), None);
    assert_eq!(b.take_block(8, 8), Some(56));
    b.reset_to(mark);
    assert_eq!(b.take_block(48, 1), Some(16));
    assert_eq!(b.take_block(0, 1), Some(64));
    assert_eq!(b.take_block(usize::MAX, 1), None);
}
