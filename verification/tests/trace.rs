use et_radiosity::text::{push_decimal, same_text, trim_end};
use et_radiosity::trace::{
    partitions_fit, read_trace, trace_lines, Topology, TRACE_BUFFER_BYTES, TRACE_MAGIC,
};

fn header(major: u16, minor: u16, data_size: u32) -> Vec<u8> {
    let mut b = vec![0u8; 64];
    b[0..4].copy_from_slice(&TRACE_MAGIC.to_le_bytes());
    b[4..6].copy_from_slice(&major.to_le_bytes());
    b[6..8].copy_from_slice(&minor.to_le_bytes());
    b[12..16].copy_from_slice(&data_size.to_le_bytes());
    b
}

fn entry(hart: u16, kind: u16, payload: &[u8]) -> Vec<u8> {
    let mut e = vec![0u8; 16];
    e[8..12].copy_from_slice(&(payload.len() as u32).to_le_bytes());
    e[12..14].copy_from_slice(&hart.to_le_bytes());
    e[14..16].copy_from_slice(&kind.to_le_bytes());
    e.extend_from_slice(payload);
    e
}

fn buffer(major: u16, minor: u16) -> Vec<u8> {
    let mut body = entry(0, 0, b"ff-kernel: n_patches=4 \n\0\0");
    body.extend(entry(3, 6, &[0; 12]));
    body.extend(entry(17, 0, b"done"));
    let mut b = header(major, minor, 64 + body.len() as u32);
    b.extend(body);
    b
}

fn topology(shire_mask: u64) -> Topology {
    Topology { shire_mask, harts_per_shire: 64, harts_per_neighbourhood: 16, cache_line: 64 }
}

#[test]
fn trace_constants() {
    assert_eq!(TRACE_BUFFER_BYTES, 4096 * 64);
    assert_eq!(TRACE_MAGIC, et_soc1::trace::MAGIC_HEADER);
}

#[test]
fn trace_shows_string_entries_trimmed() {
    assert_eq!(
        read_trace(&buffer(0, 6)),
        vec!["  [hart 0] ff-kernel: n_patches=4", "  [hart 17] done"]
    );
    assert_eq!(read_trace(&buffer(0, 1)).len(), 2);
}

#[test]
fn undecodable_traces_show_nothing() {
    assert!(read_trace(&[]).is_empty());
    assert!(read_trace(&vec![0u8; 4096]).is_empty());
    assert!(read_trace(&buffer(1, 0)).is_empty());
    assert!(read_trace(&buffer(0, 7)).is_empty());
    assert!(read_trace(&buffer(0, 6)[..63]).is_empty());
}

#[test]
fn partitions_fit_the_address_space() {
    assert!(partitions_fit(&[]));
    assert!(partitions_fit(&buffer(0, 6)));
    // The largest stride and count end beyond 32-bit addresses.
    let mut wide = buffer(0, 6);
    wide[16..20].copy_from_slice(&u32::MAX.to_le_bytes());
    wide[20..22].copy_from_slice(&u16::MAX.to_le_bytes());
    assert_eq!(partitions_fit(&wide), usize::BITS == 64);
    if partitions_fit(&wide) {
        assert!(!read_trace(&wide).is_empty());
    }
}

#[test]
fn lines_name_their_hart() {
    let entries = vec![(2047u16, "a\t\n".to_string()), (0, " b".to_string())];
    assert_eq!(trace_lines(&entries), vec!["  [hart 2047] a", "  [hart 0]  b"]);
}

#[test]
fn trimming_agrees_with_std() {
    for s in ["", " ", "a", "a ", " a b \r\n", "x\u{3000}", "x\u{85}\u{a0}", "\u{e9}\u{200b}", "a\u{2028}"] {
        assert_eq!(trim_end(s), s.trim_end());
    }
}

#[test]
fn decimal_agrees_with_std() {
    for n in [0u64, 7, 10, 99, 100, u64::MAX] {
        let mut out = "n=".to_string();
        push_decimal(&mut out, n);
        assert_eq!(out, format!("n={n}"));
    }
}

#[test]
fn text_equality() {
    assert!(same_text("", ""));
    assert!(same_text("r\u{e9}d", "r\u{e9}d"));
    assert!(!same_text("red", "rod"));
    assert!(!same_text("red", "reds"));
}

#[test]
fn topology_counts() {
    let full = topology(0xFFFF_FFFF);
    assert_eq!(full.num_shires(), 32);
    assert_eq!(full.num_harts(), 2048);
    assert_eq!(topology(0).num_harts(), 0);
    assert_eq!(topology(0b1010_0001).num_shires(), 3);
}

#[test]
fn launch_mask_can_be_overridden() {
    assert_eq!(topology(0xFF).launch_mask(None), 0xFF);
    assert_eq!(topology(0xFF).launch_mask(Some(0xFE)), 0xFE);
}
