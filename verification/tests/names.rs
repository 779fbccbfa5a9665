use recursor::error::DnsError;
use recursor::packetbuff::PacketBuffer;

fn buffer_with(bytes: &[u8], at: usize) -> PacketBuffer {
    let mut b = PacketBuffer::new();
    b.buf[at..at + bytes.len()].copy_from_slice(bytes);
    b
}

fn read_name(b: &mut PacketBuffer) -> Result<String, DnsError> {
    let mut out = String::new();
    b.read_qname(&mut out)?;
    Ok(out)
}

#[test]
fn a_name_is_written_label_by_label() {
    let mut b = PacketBuffer::new();
    assert_eq!(b.write_qname("www.example.com"), Ok(()));
    let expected = b"\x03www\x07example\x03com\x00";
    assert_eq!(b.as_slice(), &expected[..]);
    assert_eq!(b.pos(), 17);
}

#[test]
fn empty_segments_are_left_out() {
    let mut b = PacketBuffer::new();
    assert_eq!(b.write_qname(""), Ok(()));
    assert_eq!(b.as_slice(), &[0u8][..]);
    let mut b = PacketBuffer::new();
    assert_eq!(b.write_qname("a..b."), Ok(()));
    assert_eq!(b.as_slice(), &b"\x01a\x01b\x00"[..]);
    let mut b = PacketBuffer::new();
    assert_eq!(b.write_qname("."), Ok(()));
    assert_eq!(b.as_slice(), &[0u8][..]);
}

#[test]
fn a_label_of_63_bytes_is_written() {
    let label = "a".repeat(63);
    let mut b = PacketBuffer::new();
    assert_eq!(b.write_qname(&label), Ok(()));
    assert_eq!(b.pos(), 65);
    assert_eq!(b.buf[0], 63);
    assert!(b.buf[1..64].iter().all(|x| *x == b'a'));
    assert_eq!(b.buf[64], 0);
}

#[test]
fn a_label_of_64_bytes_is_refused() {
    let label = "a".repeat(64);
    let mut b = PacketBuffer::new();
    assert_eq!(b.write_qname(&label), Err(DnsError::LabelTooLong));
    assert_eq!(b.pos(), 0);
    assert!(b.buf.iter().all(|x| *x == 0));
}

#[test]
fn a_failed_write_of_a_name_leaves_the_buffer_as_it_was() {
    let name = format!("ok.{}", "b".repeat(64));
    let mut b = PacketBuffer::new();
    b.seek(7);
    assert_eq!(b.write_qname(&name), Err(DnsError::LabelTooLong));
    assert_eq!(b.pos(), 7);
    assert!(b.buf.iter().all(|x| *x == 0));
}

#[test]
fn a_name_that_does_not_fit_is_refused() {
    let mut b = PacketBuffer::new();
    b.seek(500);
    assert_eq!(b.write_qname("www.example.com"), Err(DnsError::OutOfBounds));
    assert_eq!(b.pos(), 500);
    assert!(b.buf.iter().all(|x| *x == 0));
    b.seek(494);
    assert_eq!(b.write_qname("www.example.com"), Ok(()));
    assert_eq!(b.pos(), 511);
    b.seek(495);
    assert_eq!(b.write_qname("www.example.com"), Err(DnsError::OutOfBounds));
}

#[test]
fn the_first_failure_decides_the_error() {
    let name = format!("{}.{}", "a".repeat(20), "b".repeat(64));
    let mut b = PacketBuffer::new();
    b.seek(500);
    assert_eq!(b.write_qname(&name), Err(DnsError::OutOfBounds));
    b.seek(100);
    assert_eq!(b.write_qname(&name), Err(DnsError::LabelTooLong));
}

#[test]
fn a_name_is_read_in_lower_case() {
    let mut b = buffer_with(b"\x03WwW\x07ExAmPlE\x03COM\x00", 0);
    assert_eq!(read_name(&mut b), Ok("www.example.com".to_string()));
    assert_eq!(b.pos(), 17);
}

#[test]
fn the_name_is_appended_to_what_is_there() {
    let mut b = buffer_with(b"\x02ab\x00", 0);
    let mut out = String::from("x=");
    assert_eq!(b.read_qname(&mut out), Ok(()));
    assert_eq!(out, "x=ab");
}

#[test]
fn the_root_name_is_empty() {
    let mut b = PacketBuffer::new();
    assert_eq!(read_name(&mut b), Ok(String::new()));
    assert_eq!(b.pos(), 1);
}

#[test]
fn writing_then_reading_gives_the_name_in_lower_case() {
    for name in ["example.com", "A.B.C", "MiXeD.Case.ORG", "x", "", "a-b.c_d.e1"] {
        let mut b = PacketBuffer::new();
        b.seek(12);
        assert_eq!(b.write_qname(name), Ok(()));
        let end = b.pos();
        b.seek(12);
        assert_eq!(read_name(&mut b), Ok(name.to_ascii_lowercase()));
        assert_eq!(b.pos(), end);
    }
}

#[test]
fn a_name_with_an_empty_label_comes_back_without_it() {
    let mut b = PacketBuffer::new();
    assert_eq!(b.write_qname("a."), Ok(()));
    b.seek(0);
    assert_eq!(read_name(&mut b), Ok("a".to_string()));
}

#[test]
fn a_pointer_is_followed_and_the_cursor_ends_behind_it() {
    let mut b = buffer_with(b"\x03com\x00", 20);
    b.buf[40..48].copy_from_slice(b"\x03foo\xc0\x14\xff\xff");
    b.seek(40);
    assert_eq!(read_name(&mut b), Ok("foo.com".to_string()));
    assert_eq!(b.pos(), 46);
}

#[test]
fn a_pointer_uses_fourteen_bits() {
    let mut b = buffer_with(b"\x01z\x00", 0x1f0);
    b.buf[0] = 0xc1;
    b.buf[1] = 0xf0;
    assert_eq!(read_name(&mut b), Ok("z".to_string()));
    assert_eq!(b.pos(), 2);
    let mut b = PacketBuffer::new();
    b.buf[0] = 0xc2;
    b.buf[1] = 0x00;
    assert_eq!(read_name(&mut b), Err(DnsError::OutOfBounds));
    assert_eq!(b.pos(), 0);
}

fn chain(n: usize) -> PacketBuffer {
    let mut b = PacketBuffer::new();
    for i in 0..n {
        b.buf[2 * i] = 0xc0;
        b.buf[2 * i + 1] = (100 + 2 * i) as u8;
        if i + 1 < n {
            b.buf[100 + 2 * i] = 0xc0;
            b.buf[100 + 2 * i + 1] = (100 + 2 * (i + 1)) as u8;
        }
    }
    let last = 100 + 2 * (n - 1);
    b.buf[last..last + 4].copy_from_slice(b"\x02ok\x00");
    b
}

#[test]
fn five_pointers_in_a_row_are_followed() {
    let mut b = chain(5);
    assert_eq!(read_name(&mut b), Ok("ok".to_string()));
    assert_eq!(b.pos(), 2);
}

#[test]
fn six_pointers_in_a_row_are_refused() {
    let mut b = chain(6);
    assert_eq!(read_name(&mut b), Err(DnsError::MalformedCompression));
    assert_eq!(b.pos(), 0);
}

#[test]
fn a_pointer_to_itself_is_refused() {
    let mut b = PacketBuffer::new();
    b.buf[30] = 0xc0;
    b.buf[31] = 30;
    b.seek(30);
    let mut out = String::from("kept");
    assert_eq!(b.read_qname(&mut out), Err(DnsError::MalformedCompression));
    assert_eq!(out, "kept");
    assert_eq!(b.pos(), 30);
}

#[test]
fn a_label_that_runs_out_of_the_region_is_refused() {
    let mut b = PacketBuffer::new();
    b.buf[505] = 6;
    b.seek(505);
    assert_eq!(read_name(&mut b), Err(DnsError::OutOfBounds));
    assert_eq!(b.pos(), 505);
    b.buf[505] = 5;
    assert_eq!(read_name(&mut b), Ok("\0".repeat(5)));
    assert_eq!(b.pos(), 512);
    b.seek(505);
    b.buf[505] = 4;
    for i in 506..510 {
        b.buf[i] = b'q';
    }
    assert_eq!(read_name(&mut b), Ok("qqqq".to_string()));
    assert_eq!(b.pos(), 511);
}

#[test]
fn a_label_far_into_the_region_is_read() {
    let mut b = buffer_with(b"\x03abc\x00", 400);
    b.seek(400);
    assert_eq!(read_name(&mut b), Ok("abc".to_string()));
    assert_eq!(b.pos(), 405);
}

#[test]
fn a_length_byte_of_up_to_191_counts_as_a_length() {
    let mut b = PacketBuffer::new();
    b.buf[0] = 100;
    for i in 1..101 {
        b.buf[i] = b'L';
    }
    assert_eq!(read_name(&mut b), Ok("l".repeat(100)));
    assert_eq!(b.pos(), 102);
}

#[test]
fn bytes_that_are_not_text_are_replaced() {
    let mut b = buffer_with(b"\x03a\xffB\x00", 0);
    assert_eq!(read_name(&mut b), Ok("a\u{fffd}b".to_string()));
}

#[test]
fn letters_outside_ascii_are_made_small_too() {
    let mut b = buffer_with(b"\x05\xc3\x89T\xc3\x89\x00", 0);
    assert_eq!(read_name(&mut b), Ok("\u{e9}t\u{e9}".to_string()));
}

#[test]
fn every_ascii_byte_is_read_as_itself_or_as_its_small_letter() {
    for byte in 0..128u8 {
        let mut b = PacketBuffer::new();
        b.buf[0] = 3;
        b.buf[1] = byte;
        b.buf[2] = b'x';
        b.buf[3] = byte;
        let expected: String = [byte, b'x', byte]
            .iter()
            .map(|c| if c.is_ascii_uppercase() { (c + 32) as char } else { *c as char })
            .collect();
        assert_eq!(read_name(&mut b), Ok(expected));
        assert_eq!(b.pos(), 5);
    }
}

#[test]
fn text_in_utf8_is_read_as_it_is() {
    let small = "\u{e4}\u{df}\u{4e2d}\u{6587}\u{1f600}";
    let mut b = PacketBuffer::new();
    b.buf[0] = small.len() as u8;
    b.buf[1..1 + small.len()].copy_from_slice(small.as_bytes());
    assert_eq!(read_name(&mut b), Ok(small.to_string()));
}

#[test]
fn a_dot_inside_a_label_is_read_as_a_dot() {
    let mut b = buffer_with(b"\x03a.b\x01c\x00", 0);
    assert_eq!(read_name(&mut b), Ok("a.b.c".to_string()));
}
